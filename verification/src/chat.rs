//! The decisions of the interactive chat loop: what a line of input asks
//! for, the prompt template, the course of one reply (feeding the prompt,
//! then generating until a stop), the tokens and text that end a reply, and
//! the short tail of recent output in which stop sequences are searched.
use vstd::prelude::*;
use vstd::string::StringSliceAdditionalSpecFns;
use vstd::string::StrSliceExecFns;
use vstd::utf8::encode_utf8;
use vstd::utf8::is_continuation_byte;
use crate::tokenizer::{Tokenizer, piece_text, utf8_lossy, bytes_eq};

verus! {

/// The vocabulary size by which a Qwen model is recognised.
pub const QWEN_VOCAB_SIZE: usize = 151936;

/// The end-of-text id of Qwen models.
pub const QWEN_EOS_ID: usize = 151645;

/// The end-of-text id of Llama models.
pub const LLAMA_EOS_ID: usize = 2;

/// How many bytes of recent output are kept for stop-sequence detection.
pub const TAIL_LIMIT: usize = 20;

/// Whether a model with this vocabulary size uses the Qwen chat format.
pub fn is_qwen_vocab(vocab_size: usize) -> (r: bool)
    ensures
        r == (vocab_size == QWEN_VOCAB_SIZE),
{
    vocab_size == QWEN_VOCAB_SIZE
}

/// The end-of-text id of the model family.
pub fn eos_id(is_qwen: bool) -> (id: usize)
    ensures
        id == if is_qwen { QWEN_EOS_ID } else { LLAMA_EOS_ID },
{
    if is_qwen {
        QWEN_EOS_ID
    } else {
        LLAMA_EOS_ID
    }
}

/// Whether a sampled token ends the reply: the family's end-of-text id, or
/// one of the special ids of either family.
pub open spec fn stops_reply(token: usize, is_qwen: bool) -> bool {
    ||| token == (if is_qwen { QWEN_EOS_ID } else { LLAMA_EOS_ID })
    ||| token == 151643
    ||| token == 32000
    ||| token == 32001
    ||| token == 32002
}

/// Whether a sampled token ends the reply.
pub fn is_stop_token(token: usize, is_qwen: bool) -> (r: bool)
    ensures
        r == stops_reply(token, is_qwen),
{
    let eos = eos_id(is_qwen);
    token == eos || token == 151643 || token == 32000 || token == 32001 || token == 32002
}

/// The texts that end a reply when they appear in the output.
pub open spec fn stop_sequences() -> Seq<Seq<u8>> {
    seq![
        seq![60u8, 124u8, 105u8, 109u8, 95u8, 101u8, 110u8, 100u8, 124u8, 62u8],
        seq![60u8, 124u8, 105u8, 109u8, 95u8, 115u8, 116u8, 97u8, 114u8, 116u8, 124u8, 62u8],
        seq![60u8, 124u8, 117u8, 115u8, 101u8, 114u8, 124u8, 62u8],
        seq![60u8, 124u8, 115u8, 121u8, 115u8, 116u8, 101u8, 109u8, 124u8, 62u8],
        seq![60u8, 124u8, 97u8, 115u8, 115u8, 105u8, 115u8, 116u8, 97u8, 110u8, 116u8, 124u8, 62u8],
        seq![60u8, 47u8, 115u8, 62u8],
        seq![60u8, 124u8, 101u8, 110u8, 100u8, 124u8, 62u8],
        seq![60u8, 124u8, 101u8, 110u8, 100u8, 111u8, 102u8, 116u8, 101u8, 120u8, 116u8, 124u8, 62u8],
    ]
}

/// Whether `needle` occurs in `hay` at position `i`.
pub open spec fn occurs_at(hay: Seq<u8>, needle: Seq<u8>, i: int) -> bool {
    0 <= i && i + needle.len() <= hay.len() && hay.subrange(i, i + needle.len()) == needle
}

/// Whether `needle` occurs anywhere in `hay`.
pub open spec fn occurs_in(hay: Seq<u8>, needle: Seq<u8>) -> bool {
    exists|i: int| #[trigger] occurs_at(hay, needle, i)
}

/// Whether some stop sequence occurs in `text`.
pub open spec fn has_stop_sequence(text: Seq<u8>) -> bool {
    exists|k: int| 0 <= k < stop_sequences().len() && #[trigger] occurs_in(text, stop_sequences()[k])
}

/// Whether `needle` occurs in `hay` at position `i`.
fn matches_at(hay: &[u8], needle: &[u8], i: usize) -> (r: bool)
    requires
        i + needle@.len() <= hay@.len(),
    ensures
        r == occurs_at(hay@, needle@, i as int),
{
    let hay_len = hay.len();
    let mut j: usize = 0;
    while j < needle.len()
        invariant
            hay_len == hay@.len(),
            i + needle@.len() <= hay@.len(),
            j <= needle@.len(),
            forall|k: int| 0 <= k < j ==> hay@[i + k] == needle@[k],
        decreases needle@.len() - j,
    {
        if hay[i + j] != needle[j] {
            assert(hay@.subrange(i as int, i + needle@.len())[j as int] != needle@[j as int]);
            return false;
        }
        j += 1;
    }
    assert(hay@.subrange(i as int, i + needle@.len()) =~= needle@);
    true
}

/// Whether `needle` occurs anywhere in `hay`.
pub fn contains_bytes(hay: &[u8], needle: &[u8]) -> (r: bool)
    ensures
        r == occurs_in(hay@, needle@),
{
    if needle.len() > hay.len() {
        assert(!occurs_in(hay@, needle@));
        return false;
    }
    let last = hay.len() - needle.len();
    let mut i: usize = 0;
    loop
        invariant
            last == hay@.len() - needle@.len(),
            i <= last,
            forall|k: int| 0 <= k < i ==> !occurs_at(hay@, needle@, k),
        ensures
            forall|k: int| 0 <= k <= last ==> !occurs_at(hay@, needle@, k),
        decreases last - i,
    {
        if matches_at(hay, needle, i) {
            return true;
        }
        if i == last {
            break;
        }
        i += 1;
    }
    assert forall|k: int| !occurs_at(hay@, needle@, k) by {}
    false
}

/// The stop sequences.
fn stop_sequence_list() -> (v: Vec<Vec<u8>>)
    ensures
        v@.len() == stop_sequences().len(),
        forall|k: int| 0 <= k < v@.len() ==> #[trigger] v@[k]@ == stop_sequences()[k],
{
    let v = vec![
        vec![60u8, 124u8, 105u8, 109u8, 95u8, 101u8, 110u8, 100u8, 124u8, 62u8],
        vec![60u8, 124u8, 105u8, 109u8, 95u8, 115u8, 116u8, 97u8, 114u8, 116u8, 124u8, 62u8],
        vec![60u8, 124u8, 117u8, 115u8, 101u8, 114u8, 124u8, 62u8],
        vec![60u8, 124u8, 115u8, 121u8, 115u8, 116u8, 101u8, 109u8, 124u8, 62u8],
        vec![60u8, 124u8, 97u8, 115u8, 115u8, 105u8, 115u8, 116u8, 97u8, 110u8, 116u8, 124u8, 62u8],
        vec![60u8, 47u8, 115u8, 62u8],
        vec![60u8, 124u8, 101u8, 110u8, 100u8, 124u8, 62u8],
        vec![60u8, 124u8, 101u8, 110u8, 100u8, 111u8, 102u8, 116u8, 101u8, 120u8, 116u8, 124u8, 62u8],
    ];
    assert(v@.map_values(|x: Vec<u8>| x@) =~= stop_sequences());
    assert forall|k: int| 0 <= k < v@.len() implies #[trigger] v@[k]@ == stop_sequences()[k] by {
        assert(v@.map_values(|x: Vec<u8>| x@)[k] == v@[k]@);
    }
    v
}

/// Whether some stop sequence occurs in `text`.
pub fn contains_stop_sequence(text: &[u8]) -> (r: bool)
    ensures
        r == has_stop_sequence(text@),
{
    let stops = stop_sequence_list();
    let mut k: usize = 0;
    while k < stops.len()
        invariant
            stops@.len() == stop_sequences().len(),
            forall|j: int| 0 <= j < stops@.len() ==> #[trigger] stops@[j]@ == stop_sequences()[j],
            k <= stops@.len(),
            forall|j: int| 0 <= j < k ==> !occurs_in(text@, #[trigger] stop_sequences()[j]),
        decreases stops@.len() - k,
    {
        if contains_bytes(text, stops[k].as_slice()) {
            return true;
        }
        k += 1;
    }
    false
}

/// Whether byte `i` of `bytes` starts a character of UTF-8 text (or is its
/// end): the byte there is not a continuation byte.
pub open spec fn starts_char(bytes: Seq<u8>, i: int) -> bool {
    i == bytes.len() || !(0x80 <= bytes[i] < 0xC0)
}

/// Why the recent output cannot be shortened.
#[derive(Debug, Clone, Copy, PartialEq, Eq, Structural)]
pub enum TailError {
    /// The cut would fall inside a multi-byte character.
    NotCharBoundary,
}

/// The recent output after appending `piece` to `tail` and keeping only the
/// last `TAIL_LIMIT` bytes, or an error when the cut falls inside a character.
pub open spec fn next_tail(tail: Seq<u8>, piece: Seq<u8>) -> Result<Seq<u8>, TailError> {
    let joined = tail + piece;
    if joined.len() > TAIL_LIMIT {
        let trim = joined.len() - TAIL_LIMIT;
        if starts_char(joined, trim) {
            Ok(joined.subrange(trim, joined.len() as int))
        } else {
            Err(TailError::NotCharBoundary)
        }
    } else {
        Ok(joined)
    }
}

/// Keeping the recent output fails only when the cut falls inside a
/// character, that is on a UTF-8 continuation byte; otherwise the kept bytes
/// are the last `TAIL_LIMIT` bytes of the output (all of it when shorter).
pub proof fn law_tail_cut_fails_only_inside_a_character(tail: Seq<u8>, piece: Seq<u8>)
    ensures
        next_tail(tail, piece) is Err <==> (tail + piece).len() > TAIL_LIMIT && is_continuation_byte(
            (tail + piece)[(tail + piece).len() - TAIL_LIMIT],
        ),
        (tail + piece).len() <= TAIL_LIMIT ==> next_tail(tail, piece) == Ok::<Seq<u8>, TailError>(
            tail + piece,
        ),
        (tail + piece).len() > TAIL_LIMIT && !is_continuation_byte(
            (tail + piece)[(tail + piece).len() - TAIL_LIMIT],
        ) ==> (next_tail(tail, piece) matches Ok(t) && t.len() == TAIL_LIMIT && t == (tail
            + piece).subrange((tail + piece).len() - TAIL_LIMIT, (tail + piece).len() as int)),
{
}

/// The recent output of a reply, in which stop sequences are searched.
pub struct StopTail {
    tail: Vec<u8>,
}

impl StopTail {
    /// The bytes kept.
    pub closed spec fn bytes(&self) -> Seq<u8> {
        self.tail@
    }

    /// Starts with the first piece of the reply.
    pub fn new(first_piece: &[u8]) -> (t: Self)
        ensures
            t.bytes() == first_piece@,
    {
        let mut tail: Vec<u8> = Vec::new();
        let mut i: usize = 0;
        while i < first_piece.len()
            invariant
                i <= first_piece@.len(),
                tail@ =~= first_piece@.subrange(0, i as int),
            decreases first_piece@.len() - i,
        {
            tail.push(first_piece[i]);
            i += 1;
        }
        StopTail { tail }
    }

    /// Whether a stop sequence occurs in the kept bytes.
    pub fn is_stopped(&self) -> (r: bool)
        ensures
            r == has_stop_sequence(self.bytes()),
    {
        contains_stop_sequence(self.tail.as_slice())
    }

    /// Appends a piece, keeps the last `TAIL_LIMIT` bytes and tells whether a
    /// stop sequence now occurs. When the cut would split a character the
    /// tail is left as it was and the error is returned.
    pub fn push_piece(&mut self, piece: &[u8]) -> (r: Result<bool, TailError>)
        ensures
            match next_tail(old(self).bytes(), piece@) {
                Ok(t) => final(self).bytes() == t && r == Ok::<bool, TailError>(has_stop_sequence(t)),
                Err(e) => final(self).bytes() == old(self).bytes() && r == Err::<bool, TailError>(e),
            },
    {
        let ghost before = self.tail@;
        let mut joined: Vec<u8> = Vec::new();
        let mut i: usize = 0;
        while i < self.tail.len()
            invariant
                before == self.tail@,
                i <= before.len(),
                joined@ =~= before.subrange(0, i as int),
            decreases before.len() - i,
        {
            joined.push(self.tail[i]);
            i += 1;
        }
        let mut j: usize = 0;
        while j < piece.len()
            invariant
                before == self.tail@,
                j <= piece@.len(),
                joined@ =~= before + piece@.subrange(0, j as int),
            decreases piece@.len() - j,
        {
            joined.push(piece[j]);
            j += 1;
        }
        assert(joined@ =~= before + piece@);
        if joined.len() > TAIL_LIMIT {
            let trim = joined.len() - TAIL_LIMIT;
            let b = joined[trim];
            if 0x80 <= b && b < 0xC0 {
                return Err(TailError::NotCharBoundary);
            }
            let mut kept: Vec<u8> = Vec::new();
            let mut k: usize = trim;
            while k < joined.len()
                invariant
                    trim <= k <= joined@.len(),
                    kept@ =~= joined@.subrange(trim as int, k as int),
                decreases joined@.len() - k,
            {
                kept.push(joined[k]);
                k += 1;
            }
            self.tail = kept;
        } else {
            self.tail = joined;
        }
        Ok(contains_stop_sequence(self.tail.as_slice()))
    }
}

/// The bytes of `text` with every carriage return removed.
pub open spec fn without_cr(text: Seq<u8>) -> Seq<u8> {
    text.filter(|x: u8| x != 13u8)
}

/// The opening of the Qwen chat template, before the user's message.
pub open spec fn qwen_prefix() -> Seq<u8> {
    seq![60u8, 124u8, 105u8, 109u8, 95u8, 115u8, 116u8, 97u8, 114u8, 116u8, 124u8, 62u8, 115u8, 121u8, 115u8, 116u8, 101u8, 109u8, 10u8, 89u8, 111u8, 117u8, 32u8, 97u8, 114u8, 101u8, 32u8, 81u8, 119u8, 101u8, 110u8, 44u8, 32u8, 97u8, 32u8, 104u8, 101u8, 108u8, 112u8, 102u8, 117u8, 108u8, 32u8, 97u8, 115u8, 115u8, 105u8, 115u8, 116u8, 97u8, 110u8, 116u8, 32u8, 99u8, 114u8, 101u8, 97u8, 116u8, 101u8, 100u8, 32u8, 98u8, 121u8, 32u8, 65u8, 108u8, 105u8, 98u8, 97u8, 98u8, 97u8, 32u8, 67u8, 108u8, 111u8, 117u8, 100u8, 46u8, 60u8, 124u8, 105u8, 109u8, 95u8, 101u8, 110u8, 100u8, 124u8, 62u8, 10u8, 60u8, 124u8, 105u8, 109u8, 95u8, 115u8, 116u8, 97u8, 114u8, 116u8, 124u8, 62u8, 117u8, 115u8, 101u8, 114u8, 10u8]
}

/// The close of the Qwen chat template, after the user's message.
pub open spec fn qwen_suffix() -> Seq<u8> {
    seq![60u8, 124u8, 105u8, 109u8, 95u8, 101u8, 110u8, 100u8, 124u8, 62u8, 10u8, 60u8, 124u8, 105u8, 109u8, 95u8, 115u8, 116u8, 97u8, 114u8, 116u8, 124u8, 62u8, 97u8, 115u8, 115u8, 105u8, 115u8, 116u8, 97u8, 110u8, 116u8, 10u8]
}

/// The opening of the Llama chat template, before the user's message.
pub open spec fn llama_prefix() -> Seq<u8> {
    seq![60u8, 124u8, 115u8, 121u8, 115u8, 116u8, 101u8, 109u8, 124u8, 62u8, 10u8, 89u8, 111u8, 117u8, 32u8, 97u8, 114u8, 101u8, 32u8, 97u8, 32u8, 104u8, 101u8, 108u8, 112u8, 102u8, 117u8, 108u8, 32u8, 97u8, 115u8, 115u8, 105u8, 115u8, 116u8, 97u8, 110u8, 116u8, 46u8, 60u8, 47u8, 115u8, 62u8, 10u8, 60u8, 124u8, 117u8, 115u8, 101u8, 114u8, 124u8, 62u8, 10u8]
}

/// The close of the Llama chat template, after the user's message.
pub open spec fn llama_suffix() -> Seq<u8> {
    seq![60u8, 47u8, 115u8, 62u8, 10u8, 60u8, 124u8, 97u8, 115u8, 115u8, 105u8, 115u8, 116u8, 97u8, 110u8, 116u8, 124u8, 62u8, 10u8]
}

/// The prompt for a user's message: the Qwen template (with carriage
/// returns removed) or the Llama template around it.
pub open spec fn chat_prompt_spec(user: Seq<u8>, is_qwen: bool) -> Seq<u8> {
    if is_qwen {
        without_cr(qwen_prefix() + user + qwen_suffix())
    } else {
        llama_prefix() + user + llama_suffix()
    }
}

/// Removing carriage returns from a text with one more byte.
proof fn lemma_without_cr_push(s: Seq<u8>, x: u8)
    ensures
        without_cr(s.push(x)) == if x != 13u8 {
            without_cr(s).push(x)
        } else {
            without_cr(s)
        },
{
    reveal(Seq::filter);
    assert(s.push(x).drop_last() =~= s);
}

/// Removing carriage returns distributes over concatenation.
proof fn lemma_without_cr_concat(a: Seq<u8>, b: Seq<u8>)
    ensures
        without_cr(a + b) == without_cr(a) + without_cr(b),
{
    Seq::filter_distributes_over_add(a, b, |x: u8| x != 13u8);
}

/// Appends `src` to `dst`, optionally dropping carriage returns.
fn append_bytes(dst: &mut Vec<u8>, src: &[u8], drop_cr: bool)
    ensures
        final(dst)@ == old(dst)@ + if drop_cr { without_cr(src@) } else { src@ },
{
    let mut i: usize = 0;
    let ghost start = dst@;
    while i < src.len()
        invariant
            i <= src@.len(),
            dst@ == start + if drop_cr {
                without_cr(src@.subrange(0, i as int))
            } else {
                src@.subrange(0, i as int)
            },
        decreases src@.len() - i,
    {
        let ghost prefix = src@.subrange(0, i as int);
        assert(src@.subrange(0, i + 1) =~= prefix.push(src@[i as int]));
        proof {
            lemma_without_cr_push(prefix, src@[i as int]);
        }
        if !drop_cr || src[i] != 13 {
            dst.push(src[i]);
        }
        i += 1;
        assert(dst@ =~= start + if drop_cr {
            without_cr(src@.subrange(0, i as int))
        } else {
            src@.subrange(0, i as int)
        });
    }
    assert(src@.subrange(0, src@.len() as int) =~= src@);
}

/// Builds the prompt for a user's message in the model family's chat template.
pub fn chat_prompt(user: &[u8], is_qwen: bool) -> (prompt: Vec<u8>)
    ensures
        prompt@ == chat_prompt_spec(user@, is_qwen),
{
    let mut out: Vec<u8> = Vec::new();
    if is_qwen {
        let pre: Vec<u8> = vec![60u8, 124u8, 105u8, 109u8, 95u8, 115u8, 116u8, 97u8, 114u8, 116u8, 124u8, 62u8, 115u8, 121u8, 115u8, 116u8, 101u8, 109u8, 10u8, 89u8, 111u8, 117u8, 32u8, 97u8, 114u8, 101u8, 32u8, 81u8, 119u8, 101u8, 110u8, 44u8, 32u8, 97u8, 32u8, 104u8, 101u8, 108u8, 112u8, 102u8, 117u8, 108u8, 32u8, 97u8, 115u8, 115u8, 105u8, 115u8, 116u8, 97u8, 110u8, 116u8, 32u8, 99u8, 114u8, 101u8, 97u8, 116u8, 101u8, 100u8, 32u8, 98u8, 121u8, 32u8, 65u8, 108u8, 105u8, 98u8, 97u8, 98u8, 97u8, 32u8, 67u8, 108u8, 111u8, 117u8, 100u8, 46u8, 60u8, 124u8, 105u8, 109u8, 95u8, 101u8, 110u8, 100u8, 124u8, 62u8, 10u8, 60u8, 124u8, 105u8, 109u8, 95u8, 115u8, 116u8, 97u8, 114u8, 116u8, 124u8, 62u8, 117u8, 115u8, 101u8, 114u8, 10u8];
        let post: Vec<u8> = vec![60u8, 124u8, 105u8, 109u8, 95u8, 101u8, 110u8, 100u8, 124u8, 62u8, 10u8, 60u8, 124u8, 105u8, 109u8, 95u8, 115u8, 116u8, 97u8, 114u8, 116u8, 124u8, 62u8, 97u8, 115u8, 115u8, 105u8, 115u8, 116u8, 97u8, 110u8, 116u8, 10u8];
        assert(pre@ =~= qwen_prefix());
        assert(post@ =~= qwen_suffix());
        append_bytes(&mut out, pre.as_slice(), true);
        append_bytes(&mut out, user, true);
        append_bytes(&mut out, post.as_slice(), true);
        proof {
            lemma_without_cr_concat(qwen_prefix(), user@);
            lemma_without_cr_concat(qwen_prefix() + user@, qwen_suffix());
        }
        assert(out@ =~= chat_prompt_spec(user@, is_qwen));
    } else {
        let pre: Vec<u8> = vec![60u8, 124u8, 115u8, 121u8, 115u8, 116u8, 101u8, 109u8, 124u8, 62u8, 10u8, 89u8, 111u8, 117u8, 32u8, 97u8, 114u8, 101u8, 32u8, 97u8, 32u8, 104u8, 101u8, 108u8, 112u8, 102u8, 117u8, 108u8, 32u8, 97u8, 115u8, 115u8, 105u8, 115u8, 116u8, 97u8, 110u8, 116u8, 46u8, 60u8, 47u8, 115u8, 62u8, 10u8, 60u8, 124u8, 117u8, 115u8, 101u8, 114u8, 124u8, 62u8, 10u8];
        let post: Vec<u8> = vec![60u8, 47u8, 115u8, 62u8, 10u8, 60u8, 124u8, 97u8, 115u8, 115u8, 105u8, 115u8, 116u8, 97u8, 110u8, 116u8, 124u8, 62u8, 10u8];
        assert(pre@ =~= llama_prefix());
        assert(post@ =~= llama_suffix());
        append_bytes(&mut out, pre.as_slice(), false);
        append_bytes(&mut out, user, false);
        append_bytes(&mut out, post.as_slice(), false);
        assert(out@ =~= chat_prompt_spec(user@, is_qwen));
    }
    out
}


/// The tail never holds more than `TAIL_LIMIT` bytes once it has been cut,
/// and it is always the end of the bytes pushed so far.
pub proof fn law_tail_is_bounded_suffix(tail: Seq<u8>, piece: Seq<u8>)
    ensures
        next_tail(tail, piece) matches Ok(t) ==> {
            &&& (tail + piece).len() > TAIL_LIMIT ==> t.len() == TAIL_LIMIT
            &&& (tail + piece).len() <= TAIL_LIMIT ==> t == tail + piece
            &&& t == (tail + piece).subrange((tail + piece).len() - t.len(), (tail + piece).len() as int)
        },
{
    let joined = tail + piece;
    if joined.len() <= TAIL_LIMIT {
        assert(joined.subrange(0, joined.len() as int) =~= joined);
    }
}

/// A stop sequence is caught even when it arrives split over several
/// pieces: if it ends at the end of the pushed bytes and is no longer than
/// the tail, it occurs in the new tail.
pub proof fn law_stop_sequence_caught(tail: Seq<u8>, piece: Seq<u8>, stop: Seq<u8>, i: int)
    requires
        occurs_at(tail + piece, stop, i),
        i + stop.len() == (tail + piece).len(),
        stop.len() <= TAIL_LIMIT,
    ensures
        next_tail(tail, piece) matches Ok(t) ==> occurs_in(t, stop),
{
    let joined = tail + piece;
    if let Ok(t) = next_tail(tail, piece) {
        if joined.len() > TAIL_LIMIT {
            let trim = joined.len() - TAIL_LIMIT;
            let j = i - trim;
            assert(t.subrange(j, j + stop.len()) =~= joined.subrange(i, i + stop.len()));
            assert(occurs_at(t, stop, j));
        } else {
            assert(occurs_at(t, stop, i));
        }
    }
}

/// Every stop sequence fits in the tail.
pub proof fn law_stop_sequences_fit_tail()
    ensures
        forall|k: int| 0 <= k < stop_sequences().len() ==> #[trigger] stop_sequences()[k].len() <= TAIL_LIMIT,
{
}


/// Whether a character has the Unicode property White_Space.
pub open spec fn is_white_space(c: char) -> bool {
    let u = c as u32;
    ||| 0x09 <= u <= 0x0D
    ||| u == 0x20
    ||| u == 0x85
    ||| u == 0xA0
    ||| u == 0x1680
    ||| 0x2000 <= u <= 0x200A
    ||| u == 0x2028
    ||| u == 0x2029
    ||| u == 0x202F
    ||| u == 0x205F
    ||| u == 0x3000
}

/// The text without its leading white space.
pub open spec fn trim_start_spec(s: Seq<char>) -> Seq<char>
    decreases s.len(),
{
    if s.len() > 0 && is_white_space(s[0]) {
        trim_start_spec(s.drop_first())
    } else {
        s
    }
}

/// The text without its trailing white space.
pub open spec fn trim_end_spec(s: Seq<char>) -> Seq<char>
    decreases s.len(),
{
    if s.len() > 0 && is_white_space(s.last()) {
        trim_end_spec(s.drop_last())
    } else {
        s
    }
}

/// The text without its leading and trailing white space.
pub open spec fn str_trim(s: Seq<char>) -> Seq<char> {
    trim_end_spec(trim_start_spec(s))
}

/// Whether a character has the Unicode property White_Space.
fn white_space(c: char) -> (r: bool)
    ensures
        r == is_white_space(c),
{
    let u = c as u32;
    (0x09 <= u && u <= 0x0D) || u == 0x20 || u == 0x85 || u == 0xA0 || u == 0x1680 || (0x2000
        <= u && u <= 0x200A) || u == 0x2028 || u == 0x2029 || u == 0x202F || u == 0x205F || u
        == 0x3000
}

/// The text with its leading and trailing white space removed, white space
/// being the characters with the Unicode property White_Space.
pub fn trim_str(s: &str) -> (r: &str)
    ensures
        r@ == str_trim(s@),
{
    let n = s.unicode_len();
    let mut start: usize = 0;
    assert(s@.subrange(0, n as int) =~= s@);
    while start < n && white_space(s.get_char(start))
        invariant
            n == s@.len(),
            start <= n,
            trim_start_spec(s@) == trim_start_spec(s@.subrange(start as int, n as int)),
        decreases n - start,
    {
        let ghost rest = s@.subrange(start as int, n as int);
        assert(rest.drop_first() =~= s@.subrange(start + 1, n as int));
        start += 1;
    }
    let ghost head = s@.subrange(start as int, n as int);
    assert(trim_start_spec(s@) == head) by {
        if start == n {
            assert(head =~= Seq::<char>::empty());
        } else {
            assert(!is_white_space(head[0]));
        }
    }
    let mut end: usize = n;
    assert(head =~= s@.subrange(start as int, end as int));
    while end > start && white_space(s.get_char(end - 1))
        invariant
            n == s@.len(),
            start <= end <= n,
            head == s@.subrange(start as int, n as int),
            trim_end_spec(head) == trim_end_spec(s@.subrange(start as int, end as int)),
        decreases end - start,
    {
        let ghost part = s@.subrange(start as int, end as int);
        assert(part.drop_last() =~= s@.subrange(start as int, end - 1));
        end -= 1;
    }
    let ghost kept = s@.subrange(start as int, end as int);
    assert(trim_end_spec(head) == kept) by {
        if end == start {
            assert(kept =~= Seq::<char>::empty());
        } else {
            assert(!is_white_space(kept.last()));
        }
    }
    s.substring_char(start, end)
}

/// The text `exit`.
pub open spec fn exit_text() -> Seq<u8> {
    seq![101u8, 120u8, 105u8, 116u8]
}

/// The text `quit`.
pub open spec fn quit_text() -> Seq<u8> {
    seq![113u8, 117u8, 105u8, 116u8]
}

/// What a line of user input asks for.
pub enum InputAction {
    /// The input has ended.
    EndOfInput,
    /// The user asked to leave.
    Quit,
    /// The line is blank; ask again.
    Skip,
    /// Answer this prompt, already in the chat template.
    Prompt(Vec<u8>),
}

/// Decides what a line of input asks for: nothing was read, `exit` or
/// `quit` (ignoring surrounding white space), a blank line, or a message
/// to answer, which is put into the model family's chat template.
pub fn classify_input(bytes_read: usize, line: &str, is_qwen: bool) -> (r: InputAction)
    ensures
        bytes_read == 0 ==> r is EndOfInput,
        bytes_read != 0 && (encode_utf8(str_trim(line@)) == exit_text() || encode_utf8(str_trim(line@))
            == quit_text()) ==> r is Quit,
        bytes_read != 0 && encode_utf8(str_trim(line@)) != exit_text() && encode_utf8(str_trim(line@))
            != quit_text() && str_trim(line@).len() == 0 ==> r is Skip,
        bytes_read != 0 && encode_utf8(str_trim(line@)) != exit_text() && encode_utf8(str_trim(line@))
            != quit_text() && str_trim(line@).len() != 0 ==> (r matches InputAction::Prompt(p) && p@
            == chat_prompt_spec(encode_utf8(str_trim(line@)), is_qwen)),
{
    if bytes_read == 0 {
        return InputAction::EndOfInput;
    }
    let trimmed = trim_str(line);
    let bytes = trimmed.as_bytes();
    let exit: Vec<u8> = vec![101u8, 120u8, 105u8, 116u8];
    let quit: Vec<u8> = vec![113u8, 117u8, 105u8, 116u8];
    assert(exit@ =~= exit_text());
    assert(quit@ =~= quit_text());
    if bytes_eq(bytes, exit.as_slice()) || bytes_eq(bytes, quit.as_slice()) {
        return InputAction::Quit;
    }
    if trimmed.is_empty() {
        return InputAction::Skip;
    }
    InputAction::Prompt(chat_prompt(bytes, is_qwen))
}

/// How many positions one reply may reach, prompt included.
pub const REPLY_STEPS: usize = 250;

/// Where a reply stands.
#[derive(Debug, Clone, Copy, PartialEq, Eq, Structural)]
pub enum Phase {
    /// The prompt is being fed to the model.
    Prompt,
    /// New tokens are being generated.
    Reply,
    /// The reply is over.
    Done,
}

/// What the caller does next in a reply.
pub enum TurnAction {
    /// Print `print` if there is one, then run the model on `token` at
    /// position `pos` and report the token it picks.
    Run { print: Option<String>, token: usize, pos: usize },
    /// Print `print` if there is one; the reply is over.
    Finish { print: Option<String> },
    /// The window of recent output would have to cut a character in two.
    Broken,
}

/// A `TurnAction` with its text as characters.
pub enum TurnActionView {
    Run { print: Option<Seq<char>>, token: usize, pos: usize },
    Finish { print: Option<Seq<char>> },
    Broken,
}

/// The characters of an optional text.
pub open spec fn text_view(o: Option<String>) -> Option<Seq<char>> {
    match o {
        Some(s) => Some(s@),
        None => None,
    }
}

impl View for TurnAction {
    type V = TurnActionView;

    open spec fn view(&self) -> TurnActionView {
        match self {
            TurnAction::Run { print, token, pos } => TurnActionView::Run {
                print: text_view(*print),
                token: *token,
                pos: *pos,
            },
            TurnAction::Finish { print } => TurnActionView::Finish { print: text_view(*print) },
            TurnAction::Broken => TurnActionView::Broken,
        }
    }
}

/// The state of one reply: the prompt's tokens, the number of positions
/// allowed, the model family, the phase, the position the model is run at,
/// the token it is run on, and the recent output.
pub struct TurnState {
    pub prompt: Seq<usize>,
    pub steps: usize,
    pub is_qwen: bool,
    pub phase: Phase,
    pub pos: usize,
    pub token: usize,
    pub tail: Seq<u8>,
}

/// The text of a generated token.
pub open spec fn reply_text(vocab: Seq<Seq<u8>>, token: usize) -> Seq<char> {
    utf8_lossy(piece_text(vocab[token as int]))
}

/// The state after the reply is over.
pub open spec fn finished(s: TurnState) -> TurnState {
    TurnState { phase: Phase::Done, ..s }
}

/// One step of a reply, after the model has been run at `s.pos` and has
/// picked `sampled`:
/// - while the prompt is fed, the next prompt token is run at the next
///   position; after its last token, the picked token is printed (unless
///   its text already holds a stop sequence) and generation begins, if
///   positions remain;
/// - while generating, a stop token ends the reply; otherwise its text is
///   added to the recent output, which ends the reply when a stop sequence
///   appears there, and is otherwise printed, and the token is run at the
///   next position, if positions remain.
pub open spec fn next_turn(s: TurnState, vocab: Seq<Seq<u8>>, sampled: usize) -> (TurnState, TurnActionView) {
    match s.phase {
        Phase::Prompt => if s.pos + 1 < s.prompt.len() {
            let t = s.prompt[s.pos + 1];
            (
                TurnState { pos: (s.pos + 1) as usize, token: t, ..s },
                TurnActionView::Run { print: None, token: t, pos: (s.pos + 1) as usize },
            )
        } else {
            let text = reply_text(vocab, sampled);
            let bytes = encode_utf8(text);
            let shown = if has_stop_sequence(bytes) {
                None
            } else {
                Some(text)
            };
            let n = s.prompt.len();
            if n < s.steps {
                (
                    TurnState { phase: Phase::Reply, pos: n as usize, token: sampled, tail: bytes, ..s },
                    TurnActionView::Run { print: shown, token: sampled, pos: n as usize },
                )
            } else {
                (
                    TurnState { phase: Phase::Done, token: sampled, tail: bytes, ..s },
                    TurnActionView::Finish { print: shown },
                )
            }
        },
        Phase::Reply => if stops_reply(sampled, s.is_qwen) {
            (finished(s), TurnActionView::Finish { print: None })
        } else {
            let text = reply_text(vocab, sampled);
            match next_tail(s.tail, encode_utf8(text)) {
                Err(_) => (finished(s), TurnActionView::Broken),
                Ok(t) => if has_stop_sequence(t) {
                    (TurnState { phase: Phase::Done, tail: t, ..s }, TurnActionView::Finish { print: None })
                } else if s.pos + 1 < s.steps {
                    (
                        TurnState { pos: (s.pos + 1) as usize, token: sampled, tail: t, ..s },
                        TurnActionView::Run { print: Some(text), token: sampled, pos: (s.pos + 1) as usize },
                    )
                } else {
                    (
                        TurnState { phase: Phase::Done, token: sampled, tail: t, ..s },
                        TurnActionView::Finish { print: Some(text) },
                    )
                },
            }
        },
        Phase::Done => (s, TurnActionView::Finish { print: None }),
    }
}

/// One reply to a prompt.
pub struct Turn {
    prompt: Vec<usize>,
    steps: usize,
    is_qwen: bool,
    phase: Phase,
    pos: usize,
    token: usize,
    tail: StopTail,
}

impl Turn {
    /// The state of the reply.
    pub closed spec fn state(&self) -> TurnState {
        TurnState {
            prompt: self.prompt@,
            steps: self.steps,
            is_qwen: self.is_qwen,
            phase: self.phase,
            pos: self.pos,
            token: self.token,
            tail: self.tail.bytes(),
        }
    }

    #[verifier::type_invariant]
    closed spec fn positions_in_range(&self) -> bool {
        &&& self.prompt@.len() > 0
        &&& self.phase == Phase::Prompt ==> self.pos <= self.prompt@.len()
        &&& self.phase == Phase::Reply ==> self.prompt@.len() <= self.pos < self.steps
    }

    /// Starts a reply: the first prompt token is run at position 0.
    pub fn start(prompt_tokens: Vec<usize>, steps: usize, is_qwen: bool) -> (r: (Turn, TurnAction))
        requires
            prompt_tokens@.len() > 0,
        ensures
            r.0.state().prompt == prompt_tokens@,
            r.0.state().steps == steps,
            r.0.state().is_qwen == is_qwen,
            r.0.state().phase == Phase::Prompt,
            r.0.state().pos == 0,
            r.0.state().token == prompt_tokens@[0],
            r.0.state().tail == Seq::<u8>::empty(),
            r.1@ == (TurnActionView::Run { print: None, token: prompt_tokens@[0], pos: 0 }),
    {
        let first = prompt_tokens[0];
        let empty: Vec<u8> = Vec::new();
        let tail = StopTail::new(empty.as_slice());
        let turn = Turn { prompt: prompt_tokens, steps, is_qwen, phase: Phase::Prompt, pos: 0, token: first, tail };
        (turn, TurnAction::Run { print: None, token: first, pos: 0 })
    }

    /// Takes the token that the model picked at the current position and
    /// says what to do next.
    pub fn on_sampled(&mut self, tokenizer: &Tokenizer, sampled: usize) -> (r: TurnAction)
        requires
            sampled < tokenizer.vocab().len(),
        ensures
            (final(self).state(), r@) == next_turn(old(self).state(), tokenizer.vocab(), sampled),
    {
        proof {
            use_type_invariant(&*self);
        }
        match self.phase {
            Phase::Prompt => {
                if self.pos < self.prompt.len() - 1 {
                    let t = self.prompt[self.pos + 1];
                    self.pos = self.pos + 1;
                    self.token = t;
                    return TurnAction::Run { print: None, token: t, pos: self.pos };
                }
                let text = tokenizer.decode(self.prompt[self.prompt.len() - 1], sampled);
                let tail = StopTail::new(text.as_str().as_bytes());
                let stopped = tail.is_stopped();
                let shown = if stopped {
                    None
                } else {
                    Some(text)
                };
                let n = self.prompt.len();
                self.tail = tail;
                self.token = sampled;
                if n < self.steps {
                    self.pos = n;
                    self.phase = Phase::Reply;
                    TurnAction::Run { print: shown, token: sampled, pos: n }
                } else {
                    self.phase = Phase::Done;
                    TurnAction::Finish { print: shown }
                }
            },
            Phase::Reply => {
                if is_stop_token(sampled, self.is_qwen) {
                    self.phase = Phase::Done;
                    return TurnAction::Finish { print: None };
                }
                let text = tokenizer.decode(self.token, sampled);
                let empty: Vec<u8> = Vec::new();
                let mut tail = StopTail::new(empty.as_slice());
                std::mem::swap(&mut tail, &mut self.tail);
                let pushed = tail.push_piece(text.as_str().as_bytes());
                self.tail = tail;
                match pushed {
                    Err(_) => {
                        self.phase = Phase::Done;
                        TurnAction::Broken
                    },
                    Ok(true) => {
                        self.phase = Phase::Done;
                        TurnAction::Finish { print: None }
                    },
                    Ok(false) => {
                        self.token = sampled;
                        if self.pos + 1 < self.steps {
                            self.pos = self.pos + 1;
                            TurnAction::Run { print: Some(text), token: sampled, pos: self.pos }
                        } else {
                            self.phase = Phase::Done;
                            TurnAction::Finish { print: Some(text) }
                        }
                    },
                }
            },
            Phase::Done => TurnAction::Finish { print: None },
        }
    }
}

} // verus!
