//! Byte-level BPE tokenizer: vocabulary lookup, the byte fallback, greedy
//! merging by score, decoding of pieces, and the binary vocabulary format.
use vstd::prelude::*;
use vstd::utf8::valid_utf8;
use vstd::utf8::decode_utf8;
use vstd::string::StringSliceAdditionalSpecFns;
use crate::float_bits::{f32_gt, order_key, bits_gt, NEG_1E10_BITS};
use crate::model::le_i32_at;
use crate::model::i32_from_le;

verus! {

/// The id that marks the beginning of a sequence.
pub const BOS_ID: usize = 1;

/// `r` is the first position of `text` in `vocab`, or `None` when `text` does
/// not occur there.
pub open spec fn is_first_match(vocab: Seq<Seq<u8>>, text: Seq<u8>, r: Option<int>) -> bool {
    match r {
        Some(i) => {
            &&& 0 <= i < vocab.len()
            &&& vocab[i] == text
            &&& forall|j: int| 0 <= j < i ==> vocab[j] != text
        },
        None => forall|j: int| 0 <= j < vocab.len() ==> vocab[j] != text,
    }
}

/// The first id whose piece is `text`, if any.
pub open spec fn token_id(vocab: Seq<Seq<u8>>, text: Seq<u8>) -> Option<int> {
    choose|r: Option<int>| is_first_match(vocab, text, r)
}

/// The first match of a piece exists and is unique.
pub proof fn lemma_token_id(vocab: Seq<Seq<u8>>, text: Seq<u8>)
    ensures
        is_first_match(vocab, text, token_id(vocab, text)),
        forall|r: Option<int>| is_first_match(vocab, text, r) ==> r == token_id(vocab, text),
    decreases vocab.len(),
{
    if vocab.len() == 0 {
        assert(is_first_match(vocab, text, None));
    } else {
        let init = vocab.drop_last();
        lemma_token_id(init, text);
        let r0 = token_id(init, text);
        assert forall|j: int| 0 <= j < init.len() implies init[j] == vocab[j] by {}
        match r0 {
            Some(i) => {
                assert(init[i] == vocab[i]);
                assert forall|j: int| 0 <= j < i implies vocab[j] != text by {
                    assert(init[j] == vocab[j]);
                }
                assert(is_first_match(vocab, text, Some(i)));
            },
            None => {
                assert forall|j: int| 0 <= j < init.len() implies vocab[j] != text by {
                    assert(init[j] == vocab[j]);
                }
                if vocab.last() == text {
                    assert(is_first_match(vocab, text, Some(vocab.len() - 1)));
                } else {
                    assert(is_first_match(vocab, text, None));
                }
            },
        }
    }
    assert forall|r: Option<int>| is_first_match(vocab, text, r) implies r == token_id(
        vocab,
        text,
    ) by {
        let t = token_id(vocab, text);
        match (r, t) {
            (Some(a), Some(b)) => {
                if a < b {
                    assert(vocab[a] == text);
                } else if b < a {
                    assert(vocab[b] == text);
                }
            },
            (Some(a), None) => {
                assert(vocab[a] == text);
            },
            (None, Some(b)) => {
                assert(vocab[b] == text);
            },
            (None, None) => {},
        }
    }
}

/// The ASCII digit for a hexadecimal value below 16, in upper case.
pub open spec fn upper_hex_digit(d: int) -> u8 {
    if d < 10 {
        (48 + d) as u8
    } else {
        (55 + d) as u8
    }
}

/// The value of an ASCII hexadecimal digit of either case.
pub open spec fn hex_digit_value(c: u8) -> Option<int> {
    if 48 <= c <= 57 {
        Some(c - 48)
    } else if 65 <= c <= 70 {
        Some(c - 55)
    } else if 97 <= c <= 102 {
        Some(c - 87)
    } else {
        None
    }
}

/// The piece that stands for a raw byte with no token of its own: `<0xXX>`
/// with two upper-case hexadecimal digits.
pub open spec fn byte_fallback_piece(b: u8) -> Seq<u8> {
    seq![60u8, 48u8, 120u8, upper_hex_digit(b as int / 16), upper_hex_digit(b as int % 16), 62u8]
}

/// The value of a two-character text read as an unsigned 8-bit integer in
/// base 16: two hexadecimal digits, or a `+` followed by one digit.
pub open spec fn parse_hex_pair(c0: u8, c1: u8) -> Option<u8> {
    match (hex_digit_value(c0), hex_digit_value(c1)) {
        (Some(a), Some(b)) => Some((16 * a + b) as u8),
        (None, Some(b)) => if c0 == 43 {
            Some(b as u8)
        } else {
            None
        },
        _ => None,
    }
}

/// Whether a piece has the shape `<0x..>` with a readable byte inside.
pub open spec fn is_byte_piece(piece: Seq<u8>) -> bool {
    &&& piece.len() == 6
    &&& piece[0] == 60u8
    &&& piece[1] == 48u8
    &&& piece[2] == 120u8
    &&& piece[5] == 62u8
    &&& parse_hex_pair(piece[3], piece[4]) is Some
}

/// The bytes that a piece stands for: the byte written inside a `<0x..>`
/// piece, or the piece itself.
pub open spec fn piece_text(piece: Seq<u8>) -> Seq<u8> {
    if is_byte_piece(piece) {
        seq![parse_hex_pair(piece[3], piece[4]).unwrap()]
    } else {
        piece
    }
}

/// The token that stands for a single input byte: the piece of that one
/// byte, or else its `<0xXX>` fallback piece.
pub open spec fn byte_token(vocab: Seq<Seq<u8>>, b: u8) -> Option<int> {
    match token_id(vocab, seq![b]) {
        Some(i) => Some(i),
        None => token_id(vocab, byte_fallback_piece(b)),
    }
}

/// Whether every byte of `bytes` has a token.
pub open spec fn encodable(vocab: Seq<Seq<u8>>, bytes: Seq<u8>) -> bool {
    forall|i: int| 0 <= i < bytes.len() ==> (#[trigger] byte_token(vocab, bytes[i])) is Some
}

/// One token per input byte, before any merge.
pub open spec fn initial_tokens(vocab: Seq<Seq<u8>>, bytes: Seq<u8>) -> Seq<usize> {
    Seq::new(bytes.len(), |i: int| byte_token(vocab, bytes[i]).unwrap() as usize)
}

/// The id of the piece formed by joining the pieces at positions `i` and
/// `i + 1` of `toks`.
pub open spec fn pair_id(vocab: Seq<Seq<u8>>, toks: Seq<usize>, i: int) -> Option<int> {
    token_id(vocab, vocab[toks[i] as int] + vocab[toks[i + 1] as int])
}

/// Whether the adjacent pair at position `i` may be merged: the joined
/// piece is in the vocabulary and its score is greater than `-1e10`.
pub open spec fn mergeable(vocab: Seq<Seq<u8>>, scores: Seq<u32>, toks: Seq<usize>, i: int) -> bool {
    &&& 0 <= i < toks.len() - 1
    &&& pair_id(vocab, toks, i) is Some
    &&& f32_gt(scores[pair_id(vocab, toks, i).unwrap()], NEG_1E10_BITS)
}

/// The ordering key of the score of the merge at position `i`.
pub open spec fn merge_key(vocab: Seq<Seq<u8>>, scores: Seq<u32>, toks: Seq<usize>, i: int) -> int {
    order_key(scores[pair_id(vocab, toks, i).unwrap()])
}

/// Position `i` holds the best merge among positions below `k`: the first
/// of the highest-scoring mergeable pairs.
pub open spec fn is_best_merge_below(
    vocab: Seq<Seq<u8>>,
    scores: Seq<u32>,
    toks: Seq<usize>,
    i: int,
    k: int,
) -> bool {
    &&& 0 <= i < k
    &&& mergeable(vocab, scores, toks, i)
    &&& forall|j: int|
        0 <= j < i && #[trigger] mergeable(vocab, scores, toks, j) ==> merge_key(vocab, scores, toks, j)
            < merge_key(vocab, scores, toks, i)
    &&& forall|j: int|
        i < j < k && #[trigger] mergeable(vocab, scores, toks, j) ==> merge_key(vocab, scores, toks, j)
            <= merge_key(vocab, scores, toks, i)
}

/// Position `i` holds the best merge of the whole sequence.
pub open spec fn is_best_merge(vocab: Seq<Seq<u8>>, scores: Seq<u32>, toks: Seq<usize>, i: int) -> bool {
    is_best_merge_below(vocab, scores, toks, i, toks.len() - 1)
}

/// The position of the merge to apply next, if any pair can be merged.
pub open spec fn best_merge(vocab: Seq<Seq<u8>>, scores: Seq<u32>, toks: Seq<usize>) -> Option<int> {
    if exists|i: int| #[trigger] is_best_merge(vocab, scores, toks, i) {
        Some(choose|i: int| #[trigger] is_best_merge(vocab, scores, toks, i))
    } else {
        None
    }
}

/// `toks` with the pair at `i` replaced by the single token `id`.
pub open spec fn merge_at(toks: Seq<usize>, i: int, id: usize) -> Seq<usize> {
    toks.update(i, id).remove(i + 1)
}

/// Greedy merging: apply the best merge until no pair can be merged.
pub open spec fn bpe(vocab: Seq<Seq<u8>>, scores: Seq<u32>, toks: Seq<usize>) -> Seq<usize>
    decreases toks.len(),
{
    match best_merge(vocab, scores, toks) {
        Some(i) => if 0 <= i && i + 1 < toks.len() {
            bpe(vocab, scores, merge_at(toks, i, pair_id(vocab, toks, i).unwrap() as usize))
        } else {
            toks
        },
        None => toks,
    }
}

/// The token ids of a text: the optional beginning-of-sequence id, then the
/// byte tokens of the text merged greedily.
pub open spec fn encode_spec(vocab: Seq<Seq<u8>>, scores: Seq<u32>, bytes: Seq<u8>, bos: bool) -> Seq<usize> {
    (if bos {
        seq![BOS_ID]
    } else {
        Seq::<usize>::empty()
    }) + bpe(vocab, scores, initial_tokens(vocab, bytes))
}

/// There is at most one best merge below a bound.
pub proof fn lemma_best_merge_unique(
    vocab: Seq<Seq<u8>>,
    scores: Seq<u32>,
    toks: Seq<usize>,
    a: int,
    b: int,
    k: int,
)
    requires
        is_best_merge_below(vocab, scores, toks, a, k),
        is_best_merge_below(vocab, scores, toks, b, k),
    ensures
        a == b,
{
    if a < b {
        assert(mergeable(vocab, scores, toks, a));
    } else if b < a {
        assert(mergeable(vocab, scores, toks, b));
    }
}

/// The best merge below `k` exists whenever some pair below `k` can be merged.
pub proof fn lemma_best_merge_exists(vocab: Seq<Seq<u8>>, scores: Seq<u32>, toks: Seq<usize>, k: int)
    requires
        k >= 0,
    ensures
        (exists|j: int| 0 <= j < k && #[trigger] mergeable(vocab, scores, toks, j)) ==> exists|i: int|
            is_best_merge_below(vocab, scores, toks, i, k),
    decreases k,
{
    if k > 0 {
        lemma_best_merge_exists(vocab, scores, toks, k - 1);
        if exists|j: int| 0 <= j < k - 1 && #[trigger] mergeable(vocab, scores, toks, j) {
            let km = k - 1;
            let b = choose|i: int| is_best_merge_below(vocab, scores, toks, i, km);
            if mergeable(vocab, scores, toks, k - 1) && merge_key(vocab, scores, toks, k - 1) > merge_key(
                vocab,
                scores,
                toks,
                b,
            ) {
                assert(is_best_merge_below(vocab, scores, toks, k - 1, k));
            } else {
                assert(is_best_merge_below(vocab, scores, toks, b, k));
            }
        } else if mergeable(vocab, scores, toks, k - 1) {
            assert(is_best_merge_below(vocab, scores, toks, k - 1, k));
        }
    }
}

/// No best merge exactly when no pair can be merged.
pub proof fn lemma_best_merge_none(vocab: Seq<Seq<u8>>, scores: Seq<u32>, toks: Seq<usize>)
    ensures
        best_merge(vocab, scores, toks) is None <==> forall|j: int|
            !(#[trigger] mergeable(vocab, scores, toks, j)),
        best_merge(vocab, scores, toks) matches Some(i) ==> is_best_merge_below(
            vocab,
            scores,
            toks,
            i,
            toks.len() - 1,
        ),
{
    if toks.len() >= 1 {
        let k = toks.len() - 1;
        lemma_best_merge_exists(vocab, scores, toks, k);
        if exists|j: int| 0 <= j < k && #[trigger] mergeable(vocab, scores, toks, j) {
            let i = choose|i: int| is_best_merge_below(vocab, scores, toks, i, k);
            assert(is_best_merge(vocab, scores, toks, i));
        }
    }
}

/// What `String::from_utf8_lossy` makes of a byte string: the text it
/// encodes, with each ill-formed sequence replaced by U+FFFD.
pub uninterp spec fn utf8_lossy(bytes: Seq<u8>) -> Seq<char>;

/// Errors in a vocabulary file.
#[derive(Debug, Clone, Copy, PartialEq, Eq, Structural)]
pub enum TokenizerError {
    /// The file is shorter than its four-byte header.
    Header,
    /// An entry's score is present but its length field is cut off.
    Length,
    /// An entry's bytes run past the end of the file.
    TokenBytes,
}

/// The unsigned little-endian 32-bit value at `bytes[off..off + 4]`.
pub open spec fn le_u32_at(bytes: Seq<u8>, off: int) -> int {
    bytes[off] as int + 256 * (bytes[off + 1] as int) + 65536 * (bytes[off + 2] as int) + 16777216
        * (bytes[off + 3] as int)
}

/// The piece `<unk>` that stands in for entries missing from a short file.
pub open spec fn unk_piece() -> Seq<u8> {
    seq![60u8, 117u8, 110u8, 107u8, 62u8]
}

/// The pieces and scores parsed from the entries at `pos`, and the entries
/// parsed so far prepended.
pub open spec fn with_prefix(
    pieces: Seq<Seq<u8>>,
    scores: Seq<u32>,
    rest: Result<(Seq<Seq<u8>>, Seq<u32>), TokenizerError>,
) -> Result<(Seq<Seq<u8>>, Seq<u32>), TokenizerError> {
    match rest {
        Ok((p, s)) => Ok((pieces + p, scores + s)),
        Err(e) => Err(e),
    }
}

/// `count` vocabulary entries read from `data` at `pos`. Each entry is a
/// four-byte score, a four-byte signed length and that many bytes of piece.
/// When fewer than four bytes remain at the start of an entry, that entry
/// and all later ones become `<unk>` with score 0.
pub open spec fn parse_entries(data: Seq<u8>, pos: int, count: nat) -> Result<
    (Seq<Seq<u8>>, Seq<u32>),
    TokenizerError,
>
    decreases count,
{
    if count == 0 {
        Ok((Seq::empty(), Seq::empty()))
    } else if pos + 4 > data.len() {
        Ok((Seq::new(count, |i: int| unk_piece()), Seq::new(count, |i: int| 0u32)))
    } else if pos + 8 > data.len() {
        Err(TokenizerError::Length)
    } else {
        let len = (le_i32_at(data, pos + 4) as i32) as usize as int;
        if pos + 8 + len > data.len() {
            Err(TokenizerError::TokenBytes)
        } else {
            with_prefix(
                seq![data.subrange(pos + 8, pos + 8 + len)],
                seq![le_u32_at(data, pos) as u32],
                parse_entries(data, pos + 8 + len, (count - 1) as nat),
            )
        }
    }
}

/// The pieces and scores of a vocabulary file holding `count` entries
/// after its four-byte header.
pub open spec fn parse_vocab(data: Seq<u8>, count: nat) -> Result<(Seq<Seq<u8>>, Seq<u32>), TokenizerError> {
    if data.len() < 4 {
        Err(TokenizerError::Header)
    } else {
        parse_entries(data, 4, count)
    }
}

/// Calls `String::from_utf8_lossy` and takes ownership of its result. For
/// well-formed UTF-8 the result is the encoded text; other input is left
/// to the name `utf8_lossy`.
#[verifier::external_body]
fn lossy_string(bytes: &[u8]) -> (s: String)
    ensures
        s@ == utf8_lossy(bytes@),
        valid_utf8(bytes@) ==> s@ == decode_utf8(bytes@),
{
    String::from_utf8_lossy(bytes).into_owned()
}

/// Reads an unsigned little-endian 32-bit value.
fn u32_from_le(b0: u8, b1: u8, b2: u8, b3: u8) -> (v: u32)
    ensures
        v as int == b0 as int + 256 * (b1 as int) + 65536 * (b2 as int) + 16777216 * (b3 as int),
{
    b0 as u32 + 256 * (b1 as u32) + 65536 * (b2 as u32) + 16777216 * (b3 as u32)
}

/// The upper-case hexadecimal digit of a value below 16.
fn upper_hex(d: u8) -> (c: u8)
    requires
        d < 16,
    ensures
        c == upper_hex_digit(d as int),
{
    if d < 10 {
        48 + d
    } else {
        55 + d
    }
}

/// The value of an ASCII hexadecimal digit.
fn hex_value(c: u8) -> (r: Option<u8>)
    ensures
        match r {
            Some(v) => hex_digit_value(c) == Some(v as int),
            None => hex_digit_value(c) is None,
        },
{
    if 48 <= c && c <= 57 {
        Some(c - 48)
    } else if 65 <= c && c <= 70 {
        Some(c - 55)
    } else if 97 <= c && c <= 102 {
        Some(c - 87)
    } else {
        None
    }
}

/// Reads two characters as an unsigned 8-bit integer in base 16.
pub fn hex_pair(c0: u8, c1: u8) -> (r: Option<u8>)
    ensures
        r == parse_hex_pair(c0, c1),
{
    match (hex_value(c0), hex_value(c1)) {
        (Some(a), Some(b)) => Some(16 * a + b),
        (None, Some(b)) => if c0 == 43 {
            Some(b)
        } else {
            None
        },
        _ => None,
    }
}

/// The fallback piece `<0xXX>` of a byte.
pub fn byte_fallback(b: u8) -> (piece: Vec<u8>)
    ensures
        piece@ == byte_fallback_piece(b),
{
    let v = vec![60u8, 48u8, 120u8, upper_hex(b / 16), upper_hex(b % 16), 62u8];
    assert(v@ =~= byte_fallback_piece(b));
    v
}

/// Whether two byte strings are equal.
pub(crate) fn bytes_eq(a: &[u8], b: &[u8]) -> (r: bool)
    ensures
        r == (a@ == b@),
{
    if a.len() != b.len() {
        return false;
    }
    let mut i: usize = 0;
    while i < a.len()
        invariant
            a@.len() == b@.len(),
            i <= a@.len(),
            forall|k: int| 0 <= k < i ==> a@[k] == b@[k],
        decreases a@.len() - i,
    {
        if a[i] != b[i] {
            return false;
        }
        i += 1;
    }
    assert(a@ =~= b@);
    true
}

/// A copy of a byte string.
fn copy_bytes(s: &[u8]) -> (v: Vec<u8>)
    ensures
        v@ == s@,
{
    let mut v: Vec<u8> = Vec::with_capacity(s.len());
    let mut i: usize = 0;
    while i < s.len()
        invariant
            i <= s@.len(),
            v@ =~= s@.subrange(0, i as int),
        decreases s@.len() - i,
    {
        v.push(s[i]);
        i += 1;
    }
    v
}

/// The concatenation of two byte strings.
fn concat_bytes(a: &[u8], b: &[u8]) -> (v: Vec<u8>)
    ensures
        v@ == a@ + b@,
{
    let mut v = copy_bytes(a);
    let mut i: usize = 0;
    while i < b.len()
        invariant
            i <= b@.len(),
            v@ =~= a@ + b@.subrange(0, i as int),
        decreases b@.len() - i,
    {
        v.push(b[i]);
        i += 1;
    }
    assert(b@.subrange(0, b@.len() as int) =~= b@);
    v
}

/// A vocabulary of pieces with one merge score per piece. Scores are
/// single-precision values carried as their bit patterns.
pub struct Tokenizer {
    vocab: Vec<Vec<u8>>,
    vocab_scores: Vec<u32>,
    max_token_length: u32,
}

impl Tokenizer {
    /// The pieces of the vocabulary, by id.
    pub closed spec fn vocab(&self) -> Seq<Seq<u8>> {
        self.vocab@.map_values(|t: Vec<u8>| t@)
    }

    /// The merge score of each id, as a bit pattern.
    pub closed spec fn scores(&self) -> Seq<u32> {
        self.vocab_scores@
    }

    /// The longest piece length recorded in the vocabulary file's header.
    pub closed spec fn max_len(&self) -> u32 {
        self.max_token_length
    }

    #[verifier::type_invariant]
    closed spec fn wf(&self) -> bool {
        self.vocab@.len() == self.vocab_scores@.len()
    }

    /// The number of pieces.
    pub fn vocab_len(&self) -> (n: usize)
        ensures
            n == self.vocab().len(),
    {
        self.vocab.len()
    }

    /// The first id whose piece equals `text`.
    pub fn find_token(&self, text: &[u8]) -> (r: Option<usize>)
        ensures
            match r {
                Some(i) => token_id(self.vocab(), text@) == Some(i as int),
                None => token_id(self.vocab(), text@) is None,
            },
            r matches Some(i) ==> i < self.vocab().len(),
    {
        let ghost v = self.vocab();
        let mut i: usize = 0;
        while i < self.vocab.len()
            invariant
                v == self.vocab(),
                i <= v.len(),
                forall|j: int| 0 <= j < i ==> v[j] != text@,
            decreases v.len() - i,
        {
            if bytes_eq(self.vocab[i].as_slice(), text) {
                proof {
                    assert(is_first_match(v, text@, Some(i as int)));
                    lemma_token_id(v, text@);
                }
                return Some(i);
            }
            i += 1;
        }
        proof {
            assert(is_first_match(v, text@, None));
            lemma_token_id(v, text@);
        }
        None
    }

    /// The token for one input byte: the byte's own piece, or its fallback.
    pub fn token_for_byte(&self, b: u8) -> (r: Option<usize>)
        ensures
            match r {
                Some(i) => byte_token(self.vocab(), b) == Some(i as int),
                None => byte_token(self.vocab(), b) is None,
            },
    {
        let single = vec![b];
        assert(single@ =~= seq![b]);
        match self.find_token(single.as_slice()) {
            Some(id) => Some(id),
            None => {
                let fallback = byte_fallback(b);
                self.find_token(fallback.as_slice())
            },
        }
    }

    /// The first merge stage: one token per byte of `text`, or the first byte
    /// that has neither a piece of its own nor a fallback piece.
    pub fn byte_tokens(&self, text: &str) -> (r: Result<Vec<usize>, u8>)
        ensures
            r is Ok <==> encodable(self.vocab(), text.spec_bytes()),
            r matches Ok(t) ==> t@ == initial_tokens(self.vocab(), text.spec_bytes()),
            r matches Err(b) ==> exists|i: int|
                #![trigger text.spec_bytes()[i]]
                0 <= i < text.spec_bytes().len() && text.spec_bytes()[i] == b && byte_token(
                    self.vocab(),
                    b,
                ) is None && forall|j: int|
                    0 <= j < i ==> (#[trigger] byte_token(
                        self.vocab(),
                        text.spec_bytes()[j],
                    )) is Some,
    {
        let bytes = text.as_bytes();
        let ghost v = self.vocab();
        let mut toks: Vec<usize> = Vec::with_capacity(bytes.len());
        let mut i: usize = 0;
        while i < bytes.len()
            invariant
                v == self.vocab(),
                bytes@ == text.spec_bytes(),
                i <= bytes@.len(),
                toks@.len() == i,
                forall|k: int|
                    0 <= k < i ==> (#[trigger] byte_token(v, bytes@[k])) is Some,
                forall|k: int|
                    0 <= k < i ==> toks@[k] as int == byte_token(v, #[trigger] bytes@[k]).unwrap(),
            decreases bytes@.len() - i,
        {
            match self.token_for_byte(bytes[i]) {
                Some(id) => {
                    toks.push(id);
                },
                None => {
                    assert(bytes@[i as int] == bytes[i as int]);
                    return Err(bytes[i]);
                },
            }
            i += 1;
        }
        assert(toks@ =~= initial_tokens(v, bytes@));
        Ok(toks)
    }

    /// Encodes a text: the optional beginning-of-sequence id, then one token
    /// per byte, merged greedily by score until no adjacent pair merges.
    pub fn encode(&self, text: &str, bos: bool) -> (tokens: Vec<usize>)
        requires
            encodable(self.vocab(), text.spec_bytes()),
        ensures
            tokens@ == encode_spec(self.vocab(), self.scores(), text.spec_bytes(), bos),
    {
        proof {
            use_type_invariant(self);
        }
        let ghost v = self.vocab();
        let ghost sc = self.scores();
        let mut tokens: Vec<usize> = Vec::new();
        if bos {
            tokens.push(BOS_ID);
        }
        let ghost prefix = tokens@;
        let bytes = text.as_bytes();
        if bytes.len() == 0 {
            proof {
                let init = initial_tokens(v, text.spec_bytes());
                assert(init.len() == 0);
                lemma_best_merge_none(v, sc, init);
                assert(bpe(v, sc, init) == init);
                assert(tokens@ =~= encode_spec(v, sc, text.spec_bytes(), bos));
            }
            return tokens;
        }
        let mut toks = match self.byte_tokens(text) {
            Ok(t) => t,
            Err(_) => {
                return tokens;
            },
        };
        let ghost init = toks@;
        proof {
            assert forall|k: int| 0 <= k < init.len() implies init[k] < v.len() by {
                lemma_token_id(v, seq![text.spec_bytes()[k]]);
                lemma_token_id(v, byte_fallback_piece(text.spec_bytes()[k]));
            }
        }
        loop
            invariant
                v == self.vocab(),
                sc == self.scores(),
                sc.len() == v.len(),
                self.vocab@.len() == self.vocab_scores@.len(),
                toks@.len() >= 1,
                forall|k: int| 0 <= k < toks@.len() ==> toks@[k] < v.len(),
                bpe(v, sc, toks@) == bpe(v, sc, init),
            ensures
                toks@ == bpe(v, sc, init),
            decreases toks@.len(),
        {
            let mut best_score: u32 = NEG_1E10_BITS;
            let mut best_idx: Option<usize> = None;
            let mut best_id: usize = 0;
            let mut i: usize = 0;
            while i < toks.len() - 1
                invariant
                    v == self.vocab(),
                    sc == self.scores(),
                    sc.len() == v.len(),
                    self.vocab@.len() == self.vocab_scores@.len(),
                    toks@.len() >= 1,
                    forall|k: int| 0 <= k < toks@.len() ==> toks@[k] < v.len(),
                    i + 1 <= toks@.len(),
                    best_idx is None ==> best_score == NEG_1E10_BITS,
                    best_idx is None ==> forall|j: int|
                        0 <= j < i ==> !(#[trigger] mergeable(v, sc, toks@, j)),
                    best_idx matches Some(b) ==> {
                        &&& is_best_merge_below(v, sc, toks@, b as int, i as int)
                        &&& pair_id(v, toks@, b as int) == Some(best_id as int)
                        &&& best_id < v.len()
                        &&& best_score == sc[best_id as int]
                    },
                decreases toks@.len() - i,
            {
                let left = toks[i];
                let right = toks[i + 1];
                let pair = concat_bytes(self.vocab[left].as_slice(), self.vocab[right].as_slice());
                assert(pair@ == v[toks@[i as int] as int] + v[toks@[i + 1] as int]);
                match self.find_token(pair.as_slice()) {
                    Some(merged_id) => {
                        let score = self.vocab_scores[merged_id];
                        if bits_gt(score, best_score) {
                            best_score = score;
                            best_idx = Some(i);
                            best_id = merged_id;
                        }
                    },
                    None => {},
                }
                proof {
                    assert forall|j: int|
                        0 <= j < i + 1 && #[trigger] mergeable(v, sc, toks@, j) && j != i implies j
                        < i by {}
                }
                i += 1;
            }
            match best_idx {
                Some(idx) => {
                    let ghost old_toks = toks@;
                    proof {
                        lemma_best_merge_none(v, sc, old_toks);
                        let c = choose|c: int| #[trigger] is_best_merge(v, sc, old_toks, c);
                        lemma_best_merge_unique(v, sc, old_toks, c, idx as int, old_toks.len() - 1);
                    }
                    toks.set(idx, best_id);
                    toks.remove(idx + 1);
                    assert(toks@ =~= merge_at(old_toks, idx as int, best_id));
                },
                None => {
                    proof {
                        lemma_best_merge_none(v, sc, toks@);
                    }
                    break;
                },
            }
        }
        let mut k: usize = 0;
        while k < toks.len()
            invariant
                k <= toks@.len(),
                tokens@ == prefix + toks@.subrange(0, k as int),
            decreases toks@.len() - k,
        {
            tokens.push(toks[k]);
            k += 1;
            assert(tokens@ =~= prefix + toks@.subrange(0, k as int));
        }
        assert(toks@.subrange(0, k as int) =~= toks@);
        assert(tokens@ =~= encode_spec(v, sc, text.spec_bytes(), bos));
        tokens
    }

    /// Reads a vocabulary file of `vocab_size` entries: a four-byte header
    /// holding the longest piece length, then the entries.
    pub fn from_bytes(data: &[u8], vocab_size: usize) -> (r: Result<Tokenizer, TokenizerError>)
        ensures
            match (r, parse_vocab(data@, vocab_size as nat)) {
                (Ok(t), Ok((pieces, scores))) => {
                    &&& t.vocab() == pieces
                    &&& t.scores() == scores
                    &&& t.max_len() as int == le_u32_at(data@, 0)
                },
                (Err(e), Err(f)) => e == f,
                _ => false,
            },
            r matches Ok(t) ==> t.vocab().len() == vocab_size && t.scores().len() == vocab_size,
    {
        proof {
            law_parse_entries_count(data@, 4, vocab_size as nat);
        }
        if data.len() < 4 {
            return Err(TokenizerError::Header);
        }
        let max_token_length = u32_from_le(data[0], data[1], data[2], data[3]);
        let mut vocab: Vec<Vec<u8>> = Vec::new();
        let mut vocab_scores: Vec<u32> = Vec::new();
        let ghost total = parse_vocab(data@, vocab_size as nat);
        let mut pos: usize = 4;
        let mut i: usize = 0;
        while i < vocab_size
            invariant
                max_token_length as int == le_u32_at(data@, 0),
                4 <= pos <= data@.len(),
                i <= vocab_size,
                vocab@.len() == i,
                vocab_scores@.len() == i,
                total == parse_vocab(data@, vocab_size as nat),
                total == with_prefix(
                    vocab@.map_values(|t: Vec<u8>| t@),
                    vocab_scores@,
                    parse_entries(data@, pos as int, (vocab_size - i) as nat),
                ),
            decreases vocab_size - i,
        {
            let ghost count = (vocab_size - i) as nat;
            if data.len() - pos < 4 {
                let ghost pv = vocab@.map_values(|t: Vec<u8>| t@);
                let ghost ps = vocab_scores@;
                let mut k: usize = i;
                while k < vocab_size
                    invariant
                        max_token_length as int == le_u32_at(data@, 0),
                        i <= k <= vocab_size,
                        vocab@.len() == k,
                        vocab_scores@.len() == k,
                        vocab@.map_values(|t: Vec<u8>| t@) =~= pv + Seq::new(
                            (k - i) as nat,
                            |j: int| unk_piece(),
                        ),
                        vocab_scores@ =~= ps + Seq::new((k - i) as nat, |j: int| 0u32),
                    decreases vocab_size - k,
                {
                    let unk = vec![60u8, 117u8, 110u8, 107u8, 62u8];
                    assert(unk@ =~= unk_piece());
                    let ghost before = vocab@;
                    vocab.push(unk);
                    vocab_scores.push(0);
                    assert(vocab@.map_values(|t: Vec<u8>| t@) =~= before.map_values(|t: Vec<u8>| t@).push(
                        unk_piece(),
                    ));
                    k += 1;
                    assert(pv + Seq::new((k - i) as nat, |j: int| unk_piece()) =~= (pv + Seq::new(
                        (k - 1 - i) as nat,
                        |j: int| unk_piece(),
                    )).push(unk_piece()));
                    assert(ps + Seq::new((k - i) as nat, |j: int| 0u32) =~= (ps + Seq::new(
                        (k - 1 - i) as nat,
                        |j: int| 0u32,
                    )).push(0u32));
                }
                proof {
                    let r = parse_entries(data@, pos as int, count);
                    assert(r == Ok::<(Seq<Seq<u8>>, Seq<u32>), TokenizerError>((
                        Seq::new(count, |j: int| unk_piece()),
                        Seq::new(count, |j: int| 0u32),
                    )));
                    let (rp, rs) = r.unwrap();
                    assert(vocab@.map_values(|t: Vec<u8>| t@) =~= pv + rp);
                    assert(vocab_scores@ =~= ps + rs);
                }
                return Ok(Tokenizer { vocab, vocab_scores, max_token_length });
            }
            if data.len() - pos < 8 {
                return Err(TokenizerError::Length);
            }
            let score = u32_from_le(data[pos], data[pos + 1], data[pos + 2], data[pos + 3]);
            let len = i32_from_le(data[pos + 4], data[pos + 5], data[pos + 6], data[pos + 7]) as usize;
            if data.len() - pos - 8 < len {
                return Err(TokenizerError::TokenBytes);
            }
            let start = pos + 8;
            let end = start + len;
            let token = copy_bytes(&data[start..end]);
            let ghost old_pieces = vocab@.map_values(|t: Vec<u8>| t@);
            let ghost old_scores = vocab_scores@;
            vocab.push(token);
            vocab_scores.push(score);
            proof {
                assert(vocab@.map_values(|t: Vec<u8>| t@) =~= old_pieces + seq![
                    data@.subrange(start as int, end as int),
                ]);
                assert(vocab_scores@ =~= old_scores + seq![le_u32_at(data@, pos as int) as u32]);
                let rest = parse_entries(data@, end as int, (count - 1) as nat);
                match rest {
                    Ok((p, sc)) => {
                        assert(old_pieces + (seq![data@.subrange(start as int, end as int)] + p)
                            =~= (old_pieces + seq![data@.subrange(start as int, end as int)]) + p);
                        assert(old_scores + (seq![le_u32_at(data@, pos as int) as u32] + sc)
                            =~= (old_scores + seq![le_u32_at(data@, pos as int) as u32]) + sc);
                    },
                    Err(e) => {},
                }
            }
            pos = end;
            i += 1;
        }
        proof {
            assert(vocab@.map_values(|t: Vec<u8>| t@) + Seq::<Seq<u8>>::empty() =~= vocab@.map_values(
                |t: Vec<u8>| t@,
            ));
            assert(vocab_scores@ + Seq::<u32>::empty() =~= vocab_scores@);
        }
        Ok(Tokenizer { vocab, vocab_scores, max_token_length })
    }

    /// Decodes one token to text: the bytes it stands for, read as UTF-8
    /// with ill-formed sequences replaced.
    pub fn decode(&self, _prev_token: usize, token: usize) -> (text: String)
        requires
            token < self.vocab().len(),
        ensures
            text@ == utf8_lossy(piece_text(self.vocab()[token as int])),
            valid_utf8(piece_text(self.vocab()[token as int])) ==> text@ == decode_utf8(
                piece_text(self.vocab()[token as int]),
            ),
    {
        let bytes = self.piece(token);
        lossy_string(bytes.as_slice())
    }

    /// The bytes that a token stands for: a `<0x..>` piece gives the byte
    /// written inside it, any other piece gives itself.
    pub fn piece(&self, token: usize) -> (bytes: Vec<u8>)
        requires
            token < self.vocab().len(),
        ensures
            bytes@ == piece_text(self.vocab()[token as int]),
    {
        let p = &self.vocab[token];
        assert(p@ == self.vocab()[token as int]);
        if p.len() == 6 && p[0] == 60 && p[1] == 48 && p[2] == 120 && p[5] == 62 {
            if let Some(byte_val) = hex_pair(p[3], p[4]) {
                let v = vec![byte_val];
                assert(v@ =~= piece_text(p@));
                return v;
            }
        }
        copy_bytes(p.as_slice())
    }
}

} // verus!

verus! {

/// The bytes spelled by a token sequence: its pieces joined in order.
pub open spec fn spell(vocab: Seq<Seq<u8>>, toks: Seq<usize>) -> Seq<u8> {
    toks.map_values(|t: usize| vocab[t as int]).flatten()
}

/// Joining the pieces of two sequences one after the other spells the two
/// spellings one after the other.
pub proof fn lemma_spell_concat(vocab: Seq<Seq<u8>>, a: Seq<usize>, b: Seq<usize>)
    ensures
        spell(vocab, a + b) == spell(vocab, a) + spell(vocab, b),
{
    assert((a + b).map_values(|t: usize| vocab[t as int]) =~= a.map_values(|t: usize| vocab[t as int])
        + b.map_values(|t: usize| vocab[t as int]));
    vstd::seq_lib::lemma_flatten_concat(
        a.map_values(|t: usize| vocab[t as int]),
        b.map_values(|t: usize| vocab[t as int]),
    );
}

/// The spelling of a single token is its piece.
pub proof fn lemma_spell_single(vocab: Seq<Seq<u8>>, t: usize)
    ensures
        spell(vocab, seq![t]) == vocab[t as int],
{
    let m = seq![t].map_values(|x: usize| vocab[x as int]);
    assert(m.drop_first() =~= Seq::<Seq<u8>>::empty());
    assert(m.drop_first().flatten() =~= Seq::<u8>::empty());
    assert(m.flatten() =~= vocab[t as int]);
}

/// Replacing an adjacent pair by a token whose piece is the two pieces
/// joined keeps the spelling.
pub proof fn lemma_replace_pair_keeps_spelling(vocab: Seq<Seq<u8>>, toks: Seq<usize>, i: int, id: usize)
    requires
        0 <= i < toks.len() - 1,
        vocab[id as int] == vocab[toks[i] as int] + vocab[toks[i + 1] as int],
    ensures
        spell(vocab, merge_at(toks, i, id)) == spell(vocab, toks),
{
    let a = toks.subrange(0, i);
    let b = toks.subrange(i + 2, toks.len() as int);
    let x = toks[i];
    let y = toks[i + 1];
    assert(toks =~= a + (seq![x] + (seq![y] + b)));
    assert(merge_at(toks, i, id) =~= a + (seq![id] + b));
    lemma_spell_concat(vocab, a, seq![x] + (seq![y] + b));
    lemma_spell_concat(vocab, seq![x], seq![y] + b);
    lemma_spell_concat(vocab, seq![y], b);
    lemma_spell_concat(vocab, a, seq![id] + b);
    lemma_spell_concat(vocab, seq![id], b);
    lemma_spell_single(vocab, x);
    lemma_spell_single(vocab, y);
    lemma_spell_single(vocab, id);
    assert(spell(vocab, toks) =~= spell(vocab, a) + (vocab[x as int] + (vocab[y as int] + spell(
        vocab,
        b,
    ))));
}

/// Applying a merge keeps the spelling: the merged piece is the two pieces joined.
pub proof fn lemma_merge_keeps_spelling(vocab: Seq<Seq<u8>>, toks: Seq<usize>, i: int)
    requires
        vocab.len() <= usize::MAX,
        0 <= i < toks.len() - 1,
        pair_id(vocab, toks, i) is Some,
    ensures
        spell(vocab, merge_at(toks, i, pair_id(vocab, toks, i).unwrap() as usize)) == spell(vocab, toks),
{
    let joined = vocab[toks[i] as int] + vocab[toks[i + 1] as int];
    lemma_token_id(vocab, joined);
    lemma_replace_pair_keeps_spelling(vocab, toks, i, pair_id(vocab, toks, i).unwrap() as usize);
}

/// Greedy merging never changes the bytes that the tokens spell.
pub proof fn law_bpe_keeps_spelling(vocab: Seq<Seq<u8>>, scores: Seq<u32>, toks: Seq<usize>)
    requires
        vocab.len() <= usize::MAX,
    ensures
        spell(vocab, bpe(vocab, scores, toks)) == spell(vocab, toks),
    decreases toks.len(),
{
    match best_merge(vocab, scores, toks) {
        Some(i) => {
            if 0 <= i && i + 1 < toks.len() {
                lemma_best_merge_none(vocab, scores, toks);
                let next = merge_at(toks, i, pair_id(vocab, toks, i).unwrap() as usize);
                lemma_merge_keeps_spelling(vocab, toks, i);
                law_bpe_keeps_spelling(vocab, scores, next);
            }
        },
        None => {},
    }
}

/// Greedy merging only produces ids of the vocabulary and never lengthens
/// the sequence.
pub proof fn law_bpe_ids_in_vocab(vocab: Seq<Seq<u8>>, scores: Seq<u32>, toks: Seq<usize>)
    requires
        forall|k: int| 0 <= k < toks.len() ==> toks[k] < vocab.len(),
    ensures
        forall|k: int|
            0 <= k < bpe(vocab, scores, toks).len() ==> #[trigger] bpe(vocab, scores, toks)[k]
                < vocab.len(),
        bpe(vocab, scores, toks).len() <= toks.len(),
    decreases toks.len(),
{
    match best_merge(vocab, scores, toks) {
        Some(i) => {
            if 0 <= i && i + 1 < toks.len() {
                let joined = vocab[toks[i] as int] + vocab[toks[i + 1] as int];
                lemma_token_id(vocab, joined);
                lemma_best_merge_none(vocab, scores, toks);
                let next = merge_at(toks, i, pair_id(vocab, toks, i).unwrap() as usize);
                assert forall|k: int| 0 <= k < next.len() implies next[k] < vocab.len() by {
                    if k < i {
                        assert(next[k] == toks[k]);
                    } else if k > i {
                        assert(next[k] == toks[k + 1]);
                    }
                }
                law_bpe_ids_in_vocab(vocab, scores, next);
            }
        },
        None => {},
    }
}

/// Greedy merging stops only when no adjacent pair can be merged.
pub proof fn law_bpe_leaves_no_merge(vocab: Seq<Seq<u8>>, scores: Seq<u32>, toks: Seq<usize>)
    ensures
        forall|j: int| !#[trigger] mergeable(vocab, scores, bpe(vocab, scores, toks), j),
    decreases toks.len(),
{
    lemma_best_merge_none(vocab, scores, toks);
    match best_merge(vocab, scores, toks) {
        Some(i) => {
            let next = merge_at(toks, i, pair_id(vocab, toks, i).unwrap() as usize);
            assert(bpe(vocab, scores, toks) == bpe(vocab, scores, next));
            law_bpe_leaves_no_merge(vocab, scores, next);
        },
        None => {
            assert(bpe(vocab, scores, toks) == toks);
        },
    }
}

/// Each step of greedy merging applies the highest-scoring mergeable pair:
/// while some adjacent pair can be merged, merging goes on from the sequence
/// in which the pair at some position `i` is joined, where no mergeable
/// pair scores higher (IEEE `>`) than the one at `i`, and every mergeable
/// pair before `i` scores lower (ties go to the first position). When no
/// pair can be merged, the tokens are left as they are.
pub proof fn law_bpe_merges_highest_score_first(vocab: Seq<Seq<u8>>, scores: Seq<u32>, toks: Seq<usize>)
    ensures
        (forall|j: int| !#[trigger] mergeable(vocab, scores, toks, j)) ==> bpe(vocab, scores, toks)
            == toks,
        (exists|j: int| #[trigger] mergeable(vocab, scores, toks, j)) ==> exists|i: int|
            {
                &&& #[trigger] mergeable(vocab, scores, toks, i)
                &&& forall|j: int|
                    #[trigger] mergeable(vocab, scores, toks, j) ==> !f32_gt(
                        scores[pair_id(vocab, toks, j).unwrap()],
                        scores[pair_id(vocab, toks, i).unwrap()],
                    )
                &&& forall|j: int|
                    0 <= j < i && #[trigger] mergeable(vocab, scores, toks, j) ==> f32_gt(
                        scores[pair_id(vocab, toks, i).unwrap()],
                        scores[pair_id(vocab, toks, j).unwrap()],
                    )
                &&& bpe(vocab, scores, toks) == bpe(
                    vocab,
                    scores,
                    merge_at(toks, i, pair_id(vocab, toks, i).unwrap() as usize),
                )
            },
{
    lemma_best_merge_none(vocab, scores, toks);
    match best_merge(vocab, scores, toks) {
        Some(i) => {
            let si = scores[pair_id(vocab, toks, i).unwrap()];
            assert(!crate::float_bits::is_nan(si));
            assert forall|j: int| #[trigger] mergeable(vocab, scores, toks, j) implies !f32_gt(
                scores[pair_id(vocab, toks, j).unwrap()],
                si,
            ) by {
                if j < i {
                } else if j > i {
                }
            }
            assert forall|j: int| 0 <= j < i && #[trigger] mergeable(vocab, scores, toks, j) implies f32_gt(
                si,
                scores[pair_id(vocab, toks, j).unwrap()],
            ) by {}
            assert(bpe(vocab, scores, toks) == bpe(
                vocab,
                scores,
                merge_at(toks, i, pair_id(vocab, toks, i).unwrap() as usize),
            ));
            assert(mergeable(vocab, scores, toks, i));
        },
        None => {
            assert(bpe(vocab, scores, toks) == toks);
        },
    }
}

/// When every byte has a one-byte piece of its own, the byte tokens spell
/// the input.
pub proof fn lemma_initial_tokens_spell_bytes(vocab: Seq<Seq<u8>>, bytes: Seq<u8>)
    requires
        vocab.len() <= usize::MAX,
        forall|i: int| 0 <= i < bytes.len() ==> (#[trigger] token_id(vocab, seq![bytes[i]])) is Some,
    ensures
        spell(vocab, initial_tokens(vocab, bytes)) == bytes,
    decreases bytes.len(),
{
    if bytes.len() > 0 {
        let rest = bytes.drop_first();
        assert forall|i: int| 0 <= i < rest.len() implies (#[trigger] token_id(
            vocab,
            seq![rest[i]],
        )) is Some by {
            assert(rest[i] == bytes[i + 1]);
        }
        lemma_initial_tokens_spell_bytes(vocab, rest);
        let init = initial_tokens(vocab, bytes);
        assert(init =~= seq![init[0]] + initial_tokens(vocab, rest));
        lemma_spell_concat(vocab, seq![init[0]], initial_tokens(vocab, rest));
        lemma_spell_single(vocab, init[0]);
        assert(token_id(vocab, seq![bytes[0]]) is Some);
        lemma_token_id(vocab, seq![bytes[0]]);
        assert(spell(vocab, init) =~= bytes);
    } else {
        assert(initial_tokens(vocab, bytes).map_values(|t: usize| vocab[t as int]) =~= Seq::<
            Seq<u8>,
        >::empty());
    }
}

/// Encoding round trip: when every byte of the input has a one-byte piece of
/// its own, the pieces of the encoded tokens (after the optional
/// beginning-of-sequence id) join back to exactly the input bytes, and every
/// produced id names a piece of the vocabulary.
pub proof fn law_encode_spells_input(vocab: Seq<Seq<u8>>, scores: Seq<u32>, bytes: Seq<u8>, bos: bool)
    requires
        vocab.len() <= usize::MAX,
        forall|i: int| 0 <= i < bytes.len() ==> (#[trigger] token_id(vocab, seq![bytes[i]])) is Some,
    ensures
        encode_spec(vocab, scores, bytes, bos) == (if bos {
            seq![BOS_ID]
        } else {
            Seq::<usize>::empty()
        }) + bpe(vocab, scores, initial_tokens(vocab, bytes)),
        spell(vocab, bpe(vocab, scores, initial_tokens(vocab, bytes))) == bytes,
        forall|k: int|
            0 <= k < bpe(vocab, scores, initial_tokens(vocab, bytes)).len() ==> #[trigger] bpe(
                vocab,
                scores,
                initial_tokens(vocab, bytes),
            )[k] < vocab.len(),
        bpe(vocab, scores, initial_tokens(vocab, bytes)).len() <= bytes.len(),
{
    let init = initial_tokens(vocab, bytes);
    lemma_initial_tokens_spell_bytes(vocab, bytes);
    law_bpe_keeps_spelling(vocab, scores, init);
    assert forall|k: int| 0 <= k < init.len() implies init[k] < vocab.len() by {
        lemma_token_id(vocab, seq![bytes[k]]);
    }
    law_bpe_ids_in_vocab(vocab, scores, init);
}

/// The byte fallback is undone when decoding: the piece `<0xXX>` of a byte
/// stands for exactly that byte.
pub proof fn law_byte_fallback_decodes(b: u8)
    ensures
        is_byte_piece(byte_fallback_piece(b)),
        piece_text(byte_fallback_piece(b)) == seq![b],
{
    let hi = b as int / 16;
    let lo = b as int % 16;
    assert(16 * hi + lo == b as int);
    assert(hex_digit_value(upper_hex_digit(hi)) == Some(hi));
    assert(hex_digit_value(upper_hex_digit(lo)) == Some(lo));
}

/// A successfully read vocabulary has exactly the requested number of
/// entries, each with a score.
pub proof fn law_parse_entries_count(data: Seq<u8>, pos: int, count: nat)
    ensures
        parse_entries(data, pos, count) matches Ok((p, s)) ==> p.len() == count && s.len() == count,
    decreases count,
{
    if count > 0 && pos + 8 <= data.len() {
        let len = (le_i32_at(data, pos + 4) as i32) as usize as int;
        law_parse_entries_count(data, pos + 8 + len, (count - 1) as nat);
    }
}


/// The bytes that a token sequence decodes to: what each token stands for,
/// joined in order.
pub open spec fn decoded_bytes(vocab: Seq<Seq<u8>>, toks: Seq<usize>) -> Seq<u8> {
    spell(vocab.map_values(|p: Seq<u8>| piece_text(p)), toks)
}

/// No merge of the vocabulary involves a `<0x..>` byte piece: whenever two
/// pieces join into a piece of the vocabulary, neither of them nor the
/// joined piece is a byte piece.
pub open spec fn merges_avoid_byte_pieces(vocab: Seq<Seq<u8>>) -> bool {
    forall|i: int, j: int|
        0 <= i < vocab.len() && 0 <= j < vocab.len() && (#[trigger] token_id(
            vocab,
            vocab[i] + vocab[j],
        )) is Some ==> !is_byte_piece(vocab[i]) && !is_byte_piece(vocab[j]) && !is_byte_piece(
            vocab[i] + vocab[j],
        )
}

/// The byte tokens of an encodable text decode back to the text, byte
/// fallbacks included.
pub proof fn lemma_initial_tokens_decode(vocab: Seq<Seq<u8>>, bytes: Seq<u8>)
    requires
        vocab.len() <= usize::MAX,
        encodable(vocab, bytes),
    ensures
        decoded_bytes(vocab, initial_tokens(vocab, bytes)) == bytes,
    decreases bytes.len(),
{
    let dv = vocab.map_values(|p: Seq<u8>| piece_text(p));
    if bytes.len() > 0 {
        let rest = bytes.drop_first();
        assert forall|i: int| 0 <= i < rest.len() implies (#[trigger] byte_token(vocab, rest[i])) is Some by {
            assert(rest[i] == bytes[i + 1]);
            assert(byte_token(vocab, bytes[i + 1]) is Some);
        }
        lemma_initial_tokens_decode(vocab, rest);
        let init = initial_tokens(vocab, bytes);
        assert(init =~= seq![init[0]] + initial_tokens(vocab, rest));
        lemma_spell_concat(dv, seq![init[0]], initial_tokens(vocab, rest));
        lemma_spell_single(dv, init[0]);
        let b0 = bytes[0];
        assert(byte_token(vocab, b0) is Some);
        lemma_token_id(vocab, seq![b0]);
        lemma_token_id(vocab, byte_fallback_piece(b0));
        law_byte_fallback_decodes(b0);
        assert(piece_text(seq![b0]) == seq![b0]);
        assert(dv[init[0] as int] == seq![b0]);
        assert(decoded_bytes(vocab, init) =~= bytes);
    } else {
        assert(initial_tokens(vocab, bytes).map_values(|t: usize| dv[t as int]) =~= Seq::<
            Seq<u8>,
        >::empty());
    }
}

/// Greedy merging keeps the decoded bytes when no merge involves a byte piece.
pub proof fn lemma_bpe_keeps_decoded(vocab: Seq<Seq<u8>>, scores: Seq<u32>, toks: Seq<usize>)
    requires
        vocab.len() <= usize::MAX,
        merges_avoid_byte_pieces(vocab),
        forall|k: int| 0 <= k < toks.len() ==> toks[k] < vocab.len(),
    ensures
        decoded_bytes(vocab, bpe(vocab, scores, toks)) == decoded_bytes(vocab, toks),
    decreases toks.len(),
{
    let dv = vocab.map_values(|p: Seq<u8>| piece_text(p));
    match best_merge(vocab, scores, toks) {
        Some(i) => {
            if 0 <= i && i + 1 < toks.len() {
                lemma_best_merge_none(vocab, scores, toks);
                let x = toks[i] as int;
                let y = toks[i + 1] as int;
                let joined = vocab[x] + vocab[y];
                lemma_token_id(vocab, joined);
                let id = pair_id(vocab, toks, i).unwrap();
                assert(token_id(vocab, vocab[x] + vocab[y]) is Some);
                assert(!is_byte_piece(vocab[x]) && !is_byte_piece(vocab[y]) && !is_byte_piece(joined));
                assert(dv[id] == vocab[x] + vocab[y]);
                assert(dv[x] == vocab[x]);
                assert(dv[y] == vocab[y]);
                lemma_replace_pair_keeps_spelling(dv, toks, i, id as usize);
                let next = merge_at(toks, i, id as usize);
                assert forall|k: int| 0 <= k < next.len() implies next[k] < vocab.len() by {
                    if k < i {
                        assert(next[k] == toks[k]);
                    } else if k > i {
                        assert(next[k] == toks[k + 1]);
                    }
                }
                lemma_bpe_keeps_decoded(vocab, scores, next);
            }
        },
        None => {},
    }
}

/// Decoding undoes encoding: when no merge of the vocabulary involves a
/// `<0x..>` byte piece, what the encoded tokens (after the optional
/// beginning-of-sequence id) stand for, joined in order, is exactly the
/// input bytes, byte fallbacks included.
pub proof fn law_decode_inverts_encode(vocab: Seq<Seq<u8>>, scores: Seq<u32>, bytes: Seq<u8>)
    requires
        vocab.len() <= usize::MAX,
        encodable(vocab, bytes),
        merges_avoid_byte_pieces(vocab),
    ensures
        decoded_bytes(vocab, bpe(vocab, scores, initial_tokens(vocab, bytes))) == bytes,
{
    let init = initial_tokens(vocab, bytes);
    assert forall|k: int| 0 <= k < init.len() implies init[k] < vocab.len() by {
        assert(byte_token(vocab, bytes[k]) is Some);
        lemma_token_id(vocab, seq![bytes[k]]);
        lemma_token_id(vocab, byte_fallback_piece(bytes[k]));
    }
    lemma_initial_tokens_decode(vocab, bytes);
    lemma_bpe_keeps_decoded(vocab, scores, init);
}

} // verus!
