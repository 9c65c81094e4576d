use vstd::prelude::*;
use vstd::utf8::{char_is_scalar, decode_utf8, is_scalar, valid_utf8};
use std::collections::HashMap;

use crate::bindings::char_from_u32;
use crate::utf8::utf8_scalars;
use crate::web_socket::{Connected, WebSocketClient};

verus! {

broadcast use vstd::std_specs::hash::group_hash_axioms;

/// The number of codes that stand for themselves; the dictionary's codes start here.
pub open spec fn literal_codes() -> int {
    256
}

/// What the decoder knows after it has read some codes: the dictionary built so far, the next
/// code that the dictionary will assign, the expansion of the code last read, and the output.
pub struct LzwState {
    pub dict: Map<u32, Seq<u32>>,
    pub next_code: int,
    pub prev: Seq<u32>,
    pub out: Seq<u32>,
}

/// The expansion of `code` in state `st`: a literal stands for itself, a known code for its
/// dictionary entry, and any other code for the previous expansion followed by its own first value.
pub open spec fn lzw_entry(st: LzwState, code: u32) -> Seq<u32> {
    if code < literal_codes() {
        seq![code]
    } else if st.dict.contains_key(code) {
        st.dict[code]
    } else {
        st.prev + seq![st.prev[0]]
    }
}

/// The decoder's state after it has read the first `n` codes of `data` (at least the first one).
pub open spec fn lzw_state(data: Seq<u32>, n: nat) -> LzwState
    decreases n,
{
    if n <= 1 {
        LzwState { dict: Map::empty(), next_code: literal_codes(), prev: seq![data[0]], out: seq![data[0]] }
    } else {
        let st = lzw_state(data, (n - 1) as nat);
        let e = lzw_entry(st, data[n - 1]);
        LzwState {
            dict: st.dict.insert(st.next_code as u32, st.prev + seq![e[0]]),
            next_code: st.next_code + 1,
            prev: e,
            out: st.out + e,
        }
    }
}

/// The values that the code sequence `data` decodes to.
pub open spec fn lzw_output(data: Seq<u32>) -> Seq<u32> {
    lzw_state(data, data.len()).out
}

/// The inputs that the decoder handles: at least one code, a first code that is a Unicode scalar
/// value, and few enough codes that every dictionary code fits in a `u32`.
pub open spec fn lzw_decodable(data: Seq<u32>) -> bool {
    &&& data.len() > 0
    &&& is_scalar(data[0])
    &&& data.len() + literal_codes() <= u32::MAX + 1
}

pub open spec fn all_scalars(s: Seq<u32>) -> bool {
    forall|i: int| 0 <= i < s.len() ==> is_scalar(#[trigger] s[i])
}

/// Every value in the state comes from the first code or from a literal, so it is a scalar value;
/// every expansion is non-empty; the dictionary holds exactly the codes from 256 on.
proof fn lemma_lzw_state_wf(data: Seq<u32>, n: nat)
    requires
        lzw_decodable(data),
        1 <= n <= data.len(),
    ensures
        ({
            let st = lzw_state(data, n);
            &&& st.next_code == literal_codes() + n - 1
            &&& st.prev.len() > 0
            &&& all_scalars(st.prev)
            &&& all_scalars(st.out)
            &&& forall|k: u32| #[trigger]
                st.dict.contains_key(k) <==> literal_codes() <= k < st.next_code
            &&& forall|k: u32| #[trigger]
                st.dict.contains_key(k) ==> st.dict[k].len() > 0 && all_scalars(st.dict[k])
        }),
    decreases n,
{
    if n > 1 {
        lemma_lzw_state_wf(data, (n - 1) as nat);
        let st = lzw_state(data, (n - 1) as nat);
        let code = data[n - 1];
        let e = lzw_entry(st, code);
        if code < literal_codes() {
            assert(code <= 0x7f || (0x80 <= code <= 0x7ff));
        }
        assert(e.len() > 0 && all_scalars(e));
        assert(all_scalars(st.prev + seq![e[0]]));
        assert(all_scalars(st.out + e));
    }
}

/// The scalars of a well-formed UTF-8 payload are decodable exactly when there is at least one
/// and few enough of them.
pub proof fn lemma_lzw_decodable_of_scalars(payload: Seq<u8>)
    requires
        valid_utf8(payload),
    ensures
        lzw_decodable(utf8_scalars(payload)) <==> (utf8_scalars(payload).len() > 0
            && utf8_scalars(payload).len() <= u32::MAX - 255),
{
    let s = utf8_scalars(payload);
    if s.len() > 0 {
        char_is_scalar(decode_utf8(payload)[0]);
        assert(s[0] == decode_utf8(payload)[0] as u32);
    }
}

/// A sequence of literal codes (all below 256) decodes to itself.
pub proof fn lemma_literal_codes_decode_to_themselves(data: Seq<u32>)
    requires
        data.len() > 0,
        forall|i: int| 0 <= i < data.len() ==> #[trigger] data[i] < literal_codes(),
    ensures
        lzw_output(data) == data,
{
    lemma_literal_prefix(data, data.len());
    assert(data.subrange(0, data.len() as int) =~= data);
}

proof fn lemma_literal_prefix(data: Seq<u32>, n: nat)
    requires
        1 <= n <= data.len(),
        forall|i: int| 0 <= i < data.len() ==> #[trigger] data[i] < literal_codes(),
    ensures
        lzw_state(data, n).out == data.subrange(0, n as int),
    decreases n,
{
    if n == 1 {
        assert(data.subrange(0, 1) =~= seq![data[0]]);
    } else {
        lemma_literal_prefix(data, (n - 1) as nat);
        assert(data[n - 1] < literal_codes());
        assert(data.subrange(0, n as int) =~= data.subrange(0, n - 1).push(data[n - 1]));
    }
}

/// The decoder's state after `n` codes depends on those codes alone.
proof fn lemma_state_of_prefix(data: Seq<u32>, k: nat, n: nat)
    requires
        1 <= n <= k <= data.len(),
    ensures
        lzw_state(data.take(k as int), n) == lzw_state(data, n),
    decreases n,
{
    let t = data.take(k as int);
    assert(t[0] == data[0]);
    if n > 1 {
        lemma_state_of_prefix(data, k, (n - 1) as nat);
        assert(t[n - 1] == data[n - 1]);
    }
}

/// Reading more codes only appends to the output.
proof fn lemma_output_grows(data: Seq<u32>, n: nat, m: nat)
    requires
        1 <= n <= m <= data.len(),
    ensures
        lzw_state(data, n).out.len() <= lzw_state(data, m).out.len(),
        lzw_state(data, m).out.subrange(0, lzw_state(data, n).out.len() as int) == lzw_state(
            data,
            n,
        ).out,
    decreases m,
{
    if m > n {
        lemma_output_grows(data, n, (m - 1) as nat);
        let a = lzw_state(data, n).out;
        let b = lzw_state(data, (m - 1) as nat).out;
        let c = lzw_state(data, m).out;
        assert(c.subrange(0, b.len() as int) =~= b);
        assert(c.subrange(0, a.len() as int) =~= b.subrange(0, a.len() as int));
    } else {
        let a = lzw_state(data, n).out;
        assert(a.subrange(0, a.len() as int) =~= a);
    }
}

/// Decoding a prefix of the codes gives a prefix of the output, at least one value per code.
pub proof fn lemma_prefix_decodes_to_prefix(data: Seq<u32>, k: nat)
    requires
        lzw_decodable(data),
        1 <= k <= data.len(),
    ensures
        lzw_decodable(data.take(k as int)),
        lzw_output(data.take(k as int)).len() >= k,
        lzw_output(data.take(k as int)) == lzw_output(data).subrange(
            0,
            lzw_output(data.take(k as int)).len() as int,
        ),
{
    let t = data.take(k as int);
    assert(t[0] == data[0]);
    assert(lzw_decodable(t));
    lemma_state_of_prefix(data, k, k);
    lemma_output_grows(data, k, data.len());
    lemma_output_prefix_len(data, k);
}

/// Every code adds at least one value to the output, so the output is at least as long as the
/// code sequence, and it starts with the first code.
pub proof fn lemma_output_covers_codes(data: Seq<u32>)
    requires
        lzw_decodable(data),
    ensures
        lzw_output(data).len() >= data.len(),
        lzw_output(data)[0] == data[0],
{
    lemma_output_prefix_len(data, data.len());
}

proof fn lemma_output_prefix_len(data: Seq<u32>, n: nat)
    requires
        lzw_decodable(data),
        1 <= n <= data.len(),
    ensures
        lzw_state(data, n).out.len() >= n,
        lzw_state(data, n).out[0] == data[0],
    decreases n,
{
    if n > 1 {
        lemma_output_prefix_len(data, (n - 1) as nat);
        lemma_lzw_state_wf(data, (n - 1) as nat);
    }
}

/// What the compressor knows after it has read some values: its dictionary from strings of two or
/// more values to codes, the next code it assigns, the pending word (the longest string just read
/// that it has a code for), the words it has emitted so far and their codes.
pub struct LzwEncoderState {
    pub dict: Map<Seq<u32>, u32>,
    pub next_code: int,
    pub pending: Seq<u32>,
    pub words: Seq<Seq<u32>>,
    pub codes: Seq<u32>,
}

/// The code of a word: a single value is its own code, a longer word has its dictionary code.
pub open spec fn word_code(dict: Map<Seq<u32>, u32>, w: Seq<u32>) -> u32 {
    if w.len() == 1 {
        w[0]
    } else {
        dict[w]
    }
}

/// The standard LZW compressor after it has read the first `n` values of `s` (at least one): it
/// extends the pending word while the extension has a code; otherwise it emits the pending word's
/// code, gives the extension the next code (256, 257, ... in order) and starts a new word.
pub open spec fn lzw_encoder_state(s: Seq<u32>, n: nat) -> LzwEncoderState
    decreases n,
{
    if n <= 1 {
        LzwEncoderState {
            dict: Map::empty(),
            next_code: literal_codes(),
            pending: seq![s[0]],
            words: seq![],
            codes: seq![],
        }
    } else {
        let st = lzw_encoder_state(s, (n - 1) as nat);
        let grown = st.pending + seq![s[n - 1]];
        if st.dict.contains_key(grown) {
            LzwEncoderState {
                dict: st.dict,
                next_code: st.next_code,
                pending: grown,
                words: st.words,
                codes: st.codes,
            }
        } else {
            LzwEncoderState {
                dict: st.dict.insert(grown, st.next_code as u32),
                next_code: st.next_code + 1,
                pending: seq![s[n - 1]],
                words: st.words.push(st.pending),
                codes: st.codes.push(word_code(st.dict, st.pending)),
            }
        }
    }
}

/// The codes that the standard LZW compressor makes of `s`: the codes it emitted while reading,
/// then the code of the word still pending at the end.
pub open spec fn lzw_encode(s: Seq<u32>) -> Seq<u32> {
    let st = lzw_encoder_state(s, s.len());
    st.codes.push(word_code(st.dict, st.pending))
}

/// The words one after another.
pub open spec fn concat_words(ws: Seq<Seq<u32>>) -> Seq<u32>
    decreases ws.len(),
{
    if ws.len() == 0 {
        seq![]
    } else {
        concat_words(ws.drop_last()) + ws.last()
    }
}

/// The code of word `k` fits the words before it: a single value below 256 is its own code, and a
/// longer word has code `256 + j` for an earlier `j` whose word, followed by the first value of
/// word `j + 1`, is this word.
pub open spec fn code_matches(words: Seq<Seq<u32>>, codes: Seq<u32>, k: int) -> bool {
    ||| (words[k].len() == 1 && words[k][0] < literal_codes() && codes[k] == words[k][0])
    ||| (words[k].len() >= 2 && literal_codes() <= codes[k] < literal_codes() + k && ({
        let j = codes[k] - literal_codes();
        words[j] + seq![words[j + 1][0]] == words[k]
    }))
}

/// `codes` is an LZW coding of the non-empty `words`, one code per word.
pub open spec fn lzw_parse(words: Seq<Seq<u32>>, codes: Seq<u32>) -> bool {
    &&& words.len() == codes.len()
    &&& words.len() >= 1
    &&& forall|k: int| 0 <= k < words.len() ==> #[trigger] words[k].len() >= 1
    &&& forall|k: int| 0 <= k < words.len() ==> #[trigger] code_matches(words, codes, k)
}

/// The decoder, run on an LZW coding of some words, rebuilds after `k` codes the first `k` words
/// and the compressor's dictionary entries.
proof fn lemma_decode_parse_prefix(words: Seq<Seq<u32>>, codes: Seq<u32>, k: nat)
    requires
        lzw_parse(words, codes),
        codes.len() + literal_codes() <= u32::MAX + 1,
        1 <= k <= codes.len(),
    ensures
        lzw_decodable(codes),
        ({
            let st = lzw_state(codes, k);
            &&& st.out == concat_words(words.take(k as int))
            &&& st.prev == words[k - 1]
            &&& forall|code: u32|
                literal_codes() <= code < literal_codes() + k - 1 ==> #[trigger] st.dict[code]
                    == words[code - literal_codes()] + seq![words[code - literal_codes() + 1][0]]
        }),
    decreases k,
{
    assert(code_matches(words, codes, 0));
    assert(words[0].len() >= 1);
    let c0 = codes[0];
    assert(c0 < 256);
    assert(c0 <= 0x7f || (0x80 <= c0 <= 0x7ff));
    assert(lzw_decodable(codes));
    if k == 1 {
        assert(words[0] =~= seq![c0]);
        let t = words.take(1);
        assert(t.drop_last() =~= Seq::<Seq<u32>>::empty());
        assert(concat_words(t.drop_last()) =~= Seq::<u32>::empty());
        assert(t.last() == words[0]);
        assert(concat_words(t) =~= words[0]);
    } else {
        let i = k - 1;
        lemma_decode_parse_prefix(words, codes, i as nat);
        lemma_lzw_state_wf(codes, i as nat);
        let st = lzw_state(codes, i as nat);
        let code = codes[i];
        let e = lzw_entry(st, code);
        assert(code_matches(words, codes, i));
        assert(words[i].len() >= 1);
        assert(words[i - 1].len() >= 1);
        if code < literal_codes() {
            assert(words[i] =~= seq![code]);
        } else {
            let j = code - literal_codes();
            if j < i - 1 {
                assert(st.dict.contains_key(code));
                assert(st.dict[code] == words[j] + seq![words[j + 1][0]]);
            } else {
                assert(j == i - 1);
                assert(!st.dict.contains_key(code));
                assert(words[i] == words[i - 1] + seq![words[i][0]]);
                assert((words[i - 1] + seq![words[i][0]])[0] == words[i - 1][0]);
            }
        }
        assert(e == words[i]);
        let st2 = lzw_state(codes, k);
        assert forall|c: u32| literal_codes() <= c < literal_codes() + k - 1 implies #[trigger] st2.dict[c]
            == words[c - literal_codes()] + seq![words[c - literal_codes() + 1][0]] by {
            if c < literal_codes() + i - 1 {
                assert(st.dict[c] == words[c - literal_codes()] + seq![words[c - literal_codes() + 1][0]]);
            }
        }
        assert(words.take(k as int).drop_last() =~= words.take(i as int));
    }
}

/// Decoding an LZW coding of some words gives the words one after another.
proof fn lemma_decode_parse(words: Seq<Seq<u32>>, codes: Seq<u32>)
    requires
        lzw_parse(words, codes),
        codes.len() + literal_codes() <= u32::MAX + 1,
    ensures
        lzw_decodable(codes),
        lzw_output(codes) == concat_words(words),
{
    lemma_decode_parse_prefix(words, codes, codes.len());
    assert(words.take(words.len() as int) =~= words);
}

/// The dictionary entry that the compressor made after emitting word `j`: the word followed by the
/// first value of the word after it (the pending word, after the last one).
spec fn encoder_entry(st: LzwEncoderState, j: int) -> Seq<u32> {
    let next = if j + 1 < st.words.len() {
        st.words[j + 1]
    } else {
        st.pending
    };
    st.words[j] + seq![next[0]]
}

/// What holds of the compressor after it has read `n` values.
spec fn encoder_wf(s: Seq<u32>, n: nat, st: LzwEncoderState) -> bool {
    &&& st.pending.len() >= 1
    &&& st.words.len() == st.codes.len()
    &&& st.next_code == literal_codes() + st.words.len()
    &&& st.words.len() + 1 <= n
    &&& concat_words(st.words) + st.pending == s.take(n as int)
    &&& forall|k: int| 0 <= k < st.words.len() ==> #[trigger] st.words[k].len() >= 1
    &&& forall|k: int| 0 <= k < st.words.len() ==> #[trigger] code_matches(st.words, st.codes, k)
    &&& forall|j: int|
        0 <= j < st.words.len() ==> st.dict.contains_key(#[trigger] encoder_entry(st, j))
            && st.dict[encoder_entry(st, j)] == literal_codes() + j
    &&& forall|x: Seq<u32>| #[trigger]
        st.dict.contains_key(x) ==> exists|j: int|
            0 <= j < st.words.len() && x == #[trigger] encoder_entry(st, j)
    &&& st.pending.len() == 1 ==> st.pending[0] < literal_codes()
    &&& st.pending.len() >= 2 ==> st.dict.contains_key(st.pending)
}

/// Emitting the pending word keeps the words coded: the pending word's code fits the words before
/// it.
proof fn lemma_emit_pending(st: LzwEncoderState, s: Seq<u32>, n: nat)
    requires
        encoder_wf(s, n, st),
    ensures
        ({
            let words = st.words.push(st.pending);
            let codes = st.codes.push(word_code(st.dict, st.pending));
            &&& forall|k: int| 0 <= k < words.len() ==> #[trigger] words[k].len() >= 1
            &&& forall|k: int| 0 <= k < words.len() ==> #[trigger] code_matches(words, codes, k)
        }),
{
    let words = st.words.push(st.pending);
    let codes = st.codes.push(word_code(st.dict, st.pending));
    let m = st.words.len() as int;
    assert forall|k: int| 0 <= k < words.len() implies #[trigger] code_matches(words, codes, k) by {
        if k < m {
            assert(code_matches(st.words, st.codes, k));
            assert(words[k] == st.words[k]);
            assert(codes[k] == st.codes[k]);
            if st.words[k].len() >= 2 {
                let j = st.codes[k] - literal_codes();
                assert(words[j] == st.words[j]);
                assert(words[j + 1] == st.words[j + 1]);
            }
        } else {
            assert(words[k] == st.pending);
            if st.pending.len() >= 2 {
                let x = st.pending;
                assert(st.dict.contains_key(x));
                let j = choose|j: int| 0 <= j < st.words.len() && x == #[trigger] encoder_entry(st, j);
                assert(st.dict[encoder_entry(st, j)] == literal_codes() + j);
                assert(codes[k] == literal_codes() + j);
                assert(words[j] == st.words[j]);
                if j + 1 < m {
                    assert(words[j + 1] == st.words[j + 1]);
                } else {
                    assert(words[j + 1] == st.pending);
                }
            }
        }
    }
    assert forall|k: int| 0 <= k < words.len() implies #[trigger] words[k].len() >= 1 by {
        if k < m {
            assert(st.words[k].len() >= 1);
        }
    }
}

proof fn lemma_encoder_wf(s: Seq<u32>, n: nat)
    requires
        1 <= n <= s.len(),
        forall|i: int| 0 <= i < s.len() ==> #[trigger] s[i] < literal_codes(),
        s.len() + literal_codes() <= u32::MAX + 1,
    ensures
        encoder_wf(s, n, lzw_encoder_state(s, n)),
    decreases n,
{
    let st2 = lzw_encoder_state(s, n);
    if n == 1 {
        assert(s.take(1) =~= seq![s[0]]);
        assert(concat_words(st2.words) + st2.pending =~= seq![s[0]]);
    } else {
        lemma_encoder_wf(s, (n - 1) as nat);
        let st = lzw_encoder_state(s, (n - 1) as nat);
        let c = s[n - 1];
        let grown = st.pending + seq![c];
        assert(s.take(n as int) =~= s.take(n - 1) + seq![c]);
        if st.dict.contains_key(grown) {
            assert(concat_words(st.words) + grown =~= (concat_words(st.words) + st.pending) + seq![c]);
            assert forall|j: int| 0 <= j < st.words.len() implies #[trigger] encoder_entry(st2, j)
                == encoder_entry(st, j) by {
                assert(grown[0] == st.pending[0]);
            }
            assert forall|x: Seq<u32>| #[trigger] st2.dict.contains_key(x) implies exists|j: int|
                0 <= j < st2.words.len() && x == #[trigger] encoder_entry(st2, j) by {
                let j = choose|j: int| 0 <= j < st.words.len() && x == #[trigger] encoder_entry(st, j);
                assert(encoder_entry(st2, j) == encoder_entry(st, j));
            }
        } else {
            lemma_emit_pending(st, s, (n - 1) as nat);
            let m = st.words.len() as int;
            assert(st2.words.drop_last() =~= st.words);
            assert(concat_words(st2.words) + st2.pending =~= (concat_words(st.words) + st.pending)
                + seq![c]);
            assert forall|j: int| 0 <= j < m implies #[trigger] encoder_entry(st2, j) == encoder_entry(
                st,
                j,
            ) by {
                assert(st2.words[j] == st.words[j]);
                if j + 1 < m {
                    assert(st2.words[j + 1] == st.words[j + 1]);
                } else {
                    assert(st2.words[j + 1] == st.pending);
                }
            }
            assert(st2.words[m] == st.pending);
            assert(encoder_entry(st2, m) == grown);
            assert forall|j: int| 0 <= j < st2.words.len() implies st2.dict.contains_key(
                #[trigger] encoder_entry(st2, j),
            ) && st2.dict[encoder_entry(st2, j)] == literal_codes() + j by {
                if j < m {
                    assert(st.dict.contains_key(encoder_entry(st, j)));
                    assert(encoder_entry(st, j) != grown);
                }
            }
            assert forall|x: Seq<u32>| #[trigger] st2.dict.contains_key(x) implies exists|j: int|
                0 <= j < st2.words.len() && x == #[trigger] encoder_entry(st2, j) by {
                if x == grown {
                    assert(encoder_entry(st2, m) == x);
                } else {
                    assert(st.dict.contains_key(x));
                    let j = choose|j: int| 0 <= j < st.words.len() && x == #[trigger] encoder_entry(
                        st,
                        j,
                    );
                    assert(encoder_entry(st2, j) == encoder_entry(st, j));
                }
            }
        }
    }
}

/// Decoding inverts the standard LZW compressor: for values below 256 (the literal codes), the
/// compressor's codes decode back to the values.
pub proof fn lemma_decoding_inverts_encoding(s: Seq<u32>)
    requires
        s.len() >= 1,
        forall|i: int| 0 <= i < s.len() ==> #[trigger] s[i] < literal_codes(),
        s.len() + literal_codes() <= u32::MAX + 1,
    ensures
        lzw_decodable(lzw_encode(s)),
        lzw_output(lzw_encode(s)) == s,
{
    lemma_encoder_wf(s, s.len());
    let st = lzw_encoder_state(s, s.len());
    lemma_emit_pending(st, s, s.len());
    let words = st.words.push(st.pending);
    let codes = lzw_encode(s);
    assert(words.drop_last() =~= st.words);
    assert(s.take(s.len() as int) =~= s);
    assert(concat_words(words) == s);
    lemma_decode_parse(words, codes);
}

impl WebSocketClient<Connected> {
    /// Decodes a sequence of LZW codes into the characters they stand for.
    pub fn lzw_decode(data: &[u32]) -> (r: Vec<char>)
        requires
            lzw_decodable(data@),
        ensures
            r@ == lzw_output(data@).map_values(|v: u32| v as char),
    {
        let mut dict: HashMap<u32, Vec<u32>> = HashMap::new();
        let size: u32 = 256;
        let mut dyn_size = size;

        let mut first = vec![data[0]];
        let mut dyn_first = first.clone();
        let mut result: Vec<u32> = vec![data[0]];
        let ghost d = data@;
        proof {
            lemma_lzw_state_wf(d, 1);
        }

        let mut index: usize = 1;
        while index < data.len()
            invariant
                d == data@,
                lzw_decodable(d),
                1 <= index <= d.len(),
                size == 256,
                ({
                    let st = lzw_state(d, index as nat);
                    &&& dyn_size == st.next_code
                    &&& first@ == st.prev
                    &&& dyn_first@ == seq![st.prev[0]]
                    &&& result@ == st.out
                    &&& forall|k: u32| #[trigger] dict@.contains_key(k) <==> st.dict.contains_key(k)
                    &&& forall|k: u32| #[trigger] dict@.contains_key(k) ==> dict@[k]@ == st.dict[k]
                }),
            decreases d.len() - index,
        {
            let ghost st = lzw_state(d, index as nat);
            proof {
                lemma_lzw_state_wf(d, index as nat);
                lemma_lzw_state_wf(d, (index + 1) as nat);
            }
            let value = data[index];
            let new_value: Vec<u32> = if size > value {
                vec![data[index]]
            } else if let Some(v) = dict.get(&value) {
                v.clone()
            } else {
                let mut new_first = first.clone();
                new_first.extend_from_slice(&dyn_first);
                new_first
            };
            assert(new_value@ == lzw_entry(st, value));
            result.extend_from_slice(&new_value);
            dyn_first = vec![new_value[0]];
            let mut new_first = first.clone();
            new_first.extend_from_slice(&dyn_first);
            dict.insert(dyn_size, new_first);
            dyn_size = dyn_size + 1;
            first = new_value;
            index = index + 1;
        }

        proof {
            lemma_lzw_state_wf(d, d.len());
        }
        let mut chars: Vec<char> = Vec::new();
        let mut j: usize = 0;
        while j < result.len()
            invariant
                all_scalars(result@),
                j <= result@.len(),
                chars@ == result@.subrange(0, j as int).map_values(|v: u32| v as char),
            decreases result@.len() - j,
        {
            let c = char_from_u32(result[j]);
            assert(is_scalar(result@[j as int]));
            chars.push(c.unwrap());
            assert(result@.subrange(0, j + 1) =~= result@.subrange(0, j as int).push(result@[j as int]));
            assert(chars@ =~= result@.subrange(0, j + 1).map_values(|v: u32| v as char));
            j = j + 1;
        }
        assert(result@.subrange(0, result@.len() as int) =~= result@);
        chars
    }
}

} // verus!
