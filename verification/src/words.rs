//! The five-word vocabulary: its bit-codes, its text forms, and the codec
//! between byte buffers and code-word sequences.
//!
//! Encoding matches bit patterns at the current cursor in a fixed priority
//! order: the 3-bit codes `000` and `001` first, then the 2-bit codes `00`,
//! `01`, `10`, `11`, and last the 1-bit fallbacks `0` and `1`, which are
//! reachable only when fewer bits remain than the longer codes need.

use vstd::prelude::*;
use vstd::string::StrSliceExecFns;
use vstd::string::StringExecFns;

use crate::bits::{bits_of_bytes, bytes_of_bits, bytes_to_bits, bits_to_bytes};
use crate::error::{ByteStyleError, ByteStyleResult};

verus! {

/// One of the five code words.
#[derive(Clone, Copy, Debug, PartialEq, Eq, Structural)]
pub enum Word {
    A,
    B,
    C,
    D,
    E,
}

/// The canonical bit-code of a symbol: `A` and `B` decode to three bits,
/// the rest to two.
pub open spec fn word_bits(w: Word) -> Seq<bool> {
    match w {
        Word::A => seq![false, false, false],
        Word::B => seq![false, false, true],
        Word::C => seq![false, true],
        Word::D => seq![true, false],
        Word::E => seq![true, true],
    }
}

/// The rendered text form of a symbol, as characters.
pub open spec fn word_chars(w: Word) -> Seq<char> {
    match w {
        Word::A => seq!['追', '求', '极', '致'],
        Word::B => seq!['务', '实', '敢', '为'],
        Word::C => seq!['开', '放', '谦', '逊'],
        Word::D => seq!['始', '终', '创', '业'],
        Word::E => seq!['多', '元', '兼', '容'],
    }
}

/// The 2-bit rules: `00` names `A`, `01` names `C`, `10` names `D`,
/// `11` names `E`.
pub open spec fn two_bit_word(b0: bool, b1: bool) -> Word {
    if !b0 && !b1 {
        Word::A
    } else if !b0 && b1 {
        Word::C
    } else if b0 && !b1 {
        Word::D
    } else {
        Word::E
    }
}

/// The symbol sequence that the fixed rule order produces for a bit stream:
/// while at least three bits remain and the next two are both clear, a 3-bit
/// rule applies; otherwise a 2-bit rule while at least two remain; a 1-bit
/// fallback takes the final lone bit.
pub open spec fn encode_bits(bits: Seq<bool>) -> Seq<Word>
    decreases bits.len(),
{
    if bits.len() == 0 {
        Seq::<Word>::empty()
    } else if bits.len() >= 3 && !bits[0] && !bits[1] {
        seq![if bits[2] {
            Word::B
        } else {
            Word::A
        }] + encode_bits(bits.skip(3))
    } else if bits.len() >= 2 {
        seq![two_bit_word(bits[0], bits[1])] + encode_bits(bits.skip(2))
    } else {
        seq![if bits[0] {
            Word::D
        } else {
            Word::C
        }]
    }
}

/// The concatenation of the symbols' canonical bit-codes.
pub open spec fn words_bits(ws: Seq<Word>) -> Seq<bool>
    decreases ws.len(),
{
    if ws.len() == 0 {
        Seq::<bool>::empty()
    } else {
        word_bits(ws[0]) + words_bits(ws.drop_first())
    }
}

pub proof fn lemma_words_bits_singleton(w: Word)
    ensures
        words_bits(seq![w]) == word_bits(w),
{
    assert(seq![w].drop_first() =~= Seq::<Word>::empty());
    assert(words_bits(seq![w].drop_first()) =~= Seq::<bool>::empty());
    assert(word_bits(w) + Seq::<bool>::empty() =~= word_bits(w));
}

pub proof fn lemma_words_bits_concat(s1: Seq<Word>, s2: Seq<Word>)
    ensures
        words_bits(s1 + s2) == words_bits(s1) + words_bits(s2),
    decreases s1.len(),
{
    if s1.len() == 0 {
        assert(s1 + s2 =~= s2);
        assert(words_bits(s1) + words_bits(s2) =~= words_bits(s2));
    } else {
        lemma_words_bits_concat(s1.drop_first(), s2);
        assert((s1 + s2).drop_first() =~= s1.drop_first() + s2);
        assert((s1 + s2)[0] == s1[0]);
        assert(word_bits(s1[0]) + (words_bits(s1.drop_first()) + words_bits(s2)) =~= (word_bits(
            s1[0],
        ) + words_bits(s1.drop_first())) + words_bits(s2));
    }
}

/// Replaying the bit-codes of the symbols that a bit stream encodes to gives
/// the stream back, except that a terminal fallback rule may append a single
/// extra bit: the encoder consumed a code's worth of bits short of the code
/// it emitted only when the stream ran out.
pub proof fn lemma_encode_bits_reversible(bits: Seq<bool>)
    ensures
        bits.len() <= words_bits(encode_bits(bits)).len() <= bits.len() + 1,
        words_bits(encode_bits(bits)).take(bits.len() as int) == bits,
    decreases bits.len(),
{
    let out = words_bits(encode_bits(bits));
    if bits.len() == 0 {
        assert(out.take(0) =~= bits);
    } else if bits.len() >= 3 && !bits[0] && !bits[1] {
        let w = if bits[2] {
            Word::B
        } else {
            Word::A
        };
        lemma_encode_bits_reversible(bits.skip(3));
        lemma_words_bits_concat(seq![w], encode_bits(bits.skip(3)));
        lemma_words_bits_singleton(w);
        let sub = bits.skip(3);
        let rest = words_bits(encode_bits(sub));
        assert(out == word_bits(w) + rest);
        assert forall|i: int| 0 <= i < bits.len() implies out[i] == bits[i] by {
            if i >= 3 {
                assert(out[i] == rest[i - 3]);
                assert(rest.take(sub.len() as int)[i - 3] == rest[i - 3]);
                assert(sub[i - 3] == bits[i]);
            }
        }
        assert(out.take(bits.len() as int) =~= bits);
    } else if bits.len() >= 2 {
        let w = two_bit_word(bits[0], bits[1]);
        lemma_encode_bits_reversible(bits.skip(2));
        lemma_words_bits_concat(seq![w], encode_bits(bits.skip(2)));
        lemma_words_bits_singleton(w);
        let sub = bits.skip(2);
        let rest = words_bits(encode_bits(sub));
        assert(out == word_bits(w) + rest);
        assert forall|i: int| 0 <= i < bits.len() implies out[i] == bits[i] by {
            if i >= word_bits(w).len() {
                let j = i - word_bits(w).len();
                assert(out[i] == rest[j]);
                assert(rest.take(sub.len() as int)[j] == rest[j]);
                assert(sub[j] == bits[i]);
            }
        }
        assert(out.take(bits.len() as int) =~= bits);
    } else {
        let w = if bits[0] {
            Word::D
        } else {
            Word::C
        };
        assert(encode_bits(bits) =~= seq![w]);
        lemma_words_bits_singleton(w);
        assert(out =~= word_bits(w));
        assert(out.take(1) =~= bits);
    }
}

/// The whitespace that may separate tokens: space, tab, carriage return,
/// line feed.
pub open spec fn is_space(c: char) -> bool {
    c == ' ' || c == '\t' || c == '\r' || c == '\n'
}

/// `w`'s text form stands at the start of `s`.
pub open spec fn token_at(s: Seq<char>, w: Word) -> bool {
    word_chars(w).is_prefix_of(s)
}

/// Puts one parsed symbol in front of whatever the rest of the input
/// tokenizes to.
pub open spec fn cons_tokens(w: Word, rest: Option<Seq<Word>>) -> Option<Seq<Word>> {
    match rest {
        Some(t) => Some(seq![w] + t),
        None => None,
    }
}

/// The symbol sequence spelled by a code-word string: whitespace is skipped,
/// then one of the five text forms must follow; `None` when some non-empty
/// remainder starts with none of them.
pub open spec fn tokenize(s: Seq<char>) -> Option<Seq<Word>>
    decreases s.len(),
{
    if s.len() == 0 {
        Some(Seq::<Word>::empty())
    } else if is_space(s[0]) {
        tokenize(s.drop_first())
    } else if token_at(s, Word::A) {
        cons_tokens(Word::A, tokenize(s.skip(4)))
    } else if token_at(s, Word::B) {
        cons_tokens(Word::B, tokenize(s.skip(4)))
    } else if token_at(s, Word::C) {
        cons_tokens(Word::C, tokenize(s.skip(4)))
    } else if token_at(s, Word::D) {
        cons_tokens(Word::D, tokenize(s.skip(4)))
    } else if token_at(s, Word::E) {
        cons_tokens(Word::E, tokenize(s.skip(4)))
    } else {
        None
    }
}

/// The unrecognized remainder that makes `tokenize` fail: all of the input
/// from the first position where, after whitespace, no code word matches.
pub open spec fn bad_remainder(s: Seq<char>) -> Seq<char>
    decreases s.len(),
{
    if s.len() == 0 {
        Seq::<char>::empty()
    } else if is_space(s[0]) {
        bad_remainder(s.drop_first())
    } else if token_at(s, Word::A) {
        bad_remainder(s.skip(4))
    } else if token_at(s, Word::B) {
        bad_remainder(s.skip(4))
    } else if token_at(s, Word::C) {
        bad_remainder(s.skip(4))
    } else if token_at(s, Word::D) {
        bad_remainder(s.skip(4))
    } else if token_at(s, Word::E) {
        bad_remainder(s.skip(4))
    } else {
        s
    }
}

/// The text of a symbol sequence: the tokens' text forms joined by single
/// spaces.
pub open spec fn render(ws: Seq<Word>) -> Seq<char>
    decreases ws.len(),
{
    if ws.len() == 0 {
        Seq::<char>::empty()
    } else if ws.len() == 1 {
        word_chars(ws[0])
    } else {
        word_chars(ws[0]) + seq![' '] + render(ws.drop_first())
    }
}

/// No two distinct code words stand at the start of the same text: their
/// first characters already differ.
pub proof fn lemma_token_at_unique(s: Seq<char>, w1: Word, w2: Word)
    requires
        token_at(s, w1),
        token_at(s, w2),
    ensures
        w1 == w2,
{
    assert(word_chars(w1)[0] == s[0]);
    assert(word_chars(w2)[0] == s[0]);
}

/// Where a code word stands at the start of the text, tokenizing takes
/// exactly that word and goes on after its four characters.
pub proof fn lemma_tokenize_step(s: Seq<char>, w: Word)
    requires
        token_at(s, w),
    ensures
        tokenize(s) == cons_tokens(w, tokenize(s.skip(4))),
        bad_remainder(s) == bad_remainder(s.skip(4)),
{
    assert(word_chars(w)[0] == s[0]);
    assert(!is_space(s[0]));
    if token_at(s, Word::A) {
        lemma_token_at_unique(s, Word::A, w);
    } else if token_at(s, Word::B) {
        lemma_token_at_unique(s, Word::B, w);
    } else if token_at(s, Word::C) {
        lemma_token_at_unique(s, Word::C, w);
    } else if token_at(s, Word::D) {
        lemma_token_at_unique(s, Word::D, w);
    } else {
        lemma_token_at_unique(s, Word::E, w);
    }
}

/// Leading whitespace changes neither what decodes nor the remainder blamed
/// on a failure.
pub proof fn lemma_tokenize_space(s: Seq<char>, k: int)
    requires
        0 <= k <= s.len(),
        forall|i: int| 0 <= i < k ==> is_space(s[i]),
    ensures
        tokenize(s) == tokenize(s.skip(k)),
        bad_remainder(s) == bad_remainder(s.skip(k)),
    decreases k,
{
    if k == 0 {
        assert(s.skip(0) =~= s);
    } else {
        assert(is_space(s[0]));
        assert(s.drop_first() =~= s.skip(1));
        assert forall|i: int| 0 <= i < k - 1 implies is_space(s.skip(1)[i]) by {
            assert(s.skip(1)[i] == s[i + 1]);
        }
        lemma_tokenize_space(s.skip(1), k - 1);
        assert(s.skip(1).skip(k - 1) =~= s.skip(k));
    }
}

/// Every character of `p` is whitespace.
pub open spec fn all_space(p: Seq<char>) -> bool {
    forall|i: int| 0 <= i < p.len() ==> is_space(p[i])
}

/// The text `pads[0] w0 pads[1] w1 ... pads[n-1] w(n-1) pads[n]`: the tokens
/// of `ws` in order, with arbitrary padding before each and after the last.
pub open spec fn interleave(pads: Seq<Seq<char>>, ws: Seq<Word>) -> Seq<char>
    recommends
        pads.len() == ws.len() + 1,
    decreases ws.len(),
{
    if ws.len() == 0 {
        pads[0]
    } else {
        pads[0] + word_chars(ws[0]) + interleave(pads.drop_first(), ws.drop_first())
    }
}

/// Law: whitespace tolerance. Any text that lists the tokens of `ws` in
/// order, with arbitrary whitespace (none included) between, before and
/// after them, tokenizes to exactly `ws`.
pub proof fn lemma_whitespace_tolerance(pads: Seq<Seq<char>>, ws: Seq<Word>)
    requires
        pads.len() == ws.len() + 1,
        forall|i: int| 0 <= i < pads.len() ==> all_space(#[trigger] pads[i]),
    ensures
        tokenize(interleave(pads, ws)) == Some(ws),
    decreases ws.len(),
{
    let s = interleave(pads, ws);
    if ws.len() == 0 {
        assert(s == pads[0]);
        lemma_tokenize_space(s, s.len() as int);
        assert(s.skip(s.len() as int) =~= Seq::<char>::empty());
    } else {
        let rest = interleave(pads.drop_first(), ws.drop_first());
        let p0 = pads[0];
        assert forall|i: int| 0 <= i < p0.len() implies is_space(s[i]) by {
            assert(s[i] == p0[i]);
        }
        lemma_tokenize_space(s, p0.len() as int);
        let t = s.skip(p0.len() as int);
        assert(t =~= word_chars(ws[0]) + rest);
        assert(word_chars(ws[0]) =~= t.subrange(0, 4));
        lemma_tokenize_step(t, ws[0]);
        assert(t.skip(4) =~= rest);
        assert forall|i: int| 0 <= i < pads.drop_first().len() implies all_space(
            #[trigger] pads.drop_first()[i],
        ) by {
            assert(pads.drop_first()[i] == pads[i + 1]);
        }
        lemma_whitespace_tolerance(pads.drop_first(), ws.drop_first());
        assert(seq![ws[0]] + ws.drop_first() =~= ws);
    }
}

/// Law: rendering a symbol sequence and tokenizing the result gives exactly
/// that sequence back.
#[verifier::rlimit(50)]
pub proof fn lemma_tokenize_render(ws: Seq<Word>)
    ensures
        tokenize(render(ws)) == Some(ws),
    decreases ws.len(),
{
    let s = render(ws);
    if ws.len() == 0 {
    } else if ws.len() == 1 {
        assert(s == word_chars(ws[0]));
        assert(word_chars(ws[0]) =~= s.subrange(0, 4));
        lemma_tokenize_step(s, ws[0]);
        assert(s.skip(4) =~= Seq::<char>::empty());
        assert(seq![ws[0]] + Seq::<Word>::empty() =~= ws);
    } else {
        assert(s == word_chars(ws[0]) + seq![' '] + render(ws.drop_first()));
        assert(word_chars(ws[0]) =~= s.subrange(0, 4));
        lemma_tokenize_step(s, ws[0]);
        let t = s.skip(4);
        assert(t =~= seq![' '] + render(ws.drop_first()));
        assert(is_space(t[0]));
        lemma_tokenize_space(t, 1);
        assert(t.skip(1) =~= render(ws.drop_first()));
        lemma_tokenize_render(ws.drop_first());
        assert(seq![ws[0]] + ws.drop_first() =~= ws);
    }
}

/// An ordered sequence of code words.
#[derive(Debug)]
pub struct Words(pub Vec<Word>);

impl View for Words {
    type V = Seq<Word>;

    open spec fn view(&self) -> Seq<Word> {
        self.0@
    }
}

/// Puts already-parsed symbols in front of whatever the rest of the input
/// tokenizes to.
pub open spec fn append_tokens(pre: Seq<Word>, rest: Option<Seq<Word>>) -> Option<Seq<Word>> {
    match rest {
        Some(t) => Some(pre + t),
        None => None,
    }
}

/// Rendering one more symbol appends a space and its text form.
pub proof fn lemma_render_snoc(ws: Seq<Word>, i: int)
    requires
        1 <= i < ws.len(),
    ensures
        render(ws.take(i + 1)) == render(ws.take(i)) + seq![' '] + word_chars(ws[i]),
    decreases i,
{
    let t = ws.take(i + 1);
    let d = ws.drop_first();
    assert(t.len() == i + 1 >= 2);
    assert(t[0] == ws[0]);
    assert(t.drop_first() =~= d.take(i));
    if i == 1 {
        assert(d.take(1) =~= seq![ws[1]]);
        assert(render(seq![ws[1]]) == word_chars(ws[1]));
        assert(ws.take(1).len() == 1 && ws.take(1)[0] == ws[0]);
        assert(render(ws.take(1)) == word_chars(ws[0]));
        assert(render(t) == word_chars(ws[0]) + seq![' '] + word_chars(ws[1]));
        assert(render(ws.take(i)) + seq![' '] + word_chars(ws[i]) =~= word_chars(ws[0]) + seq![' ']
            + word_chars(ws[1]));
    } else {
        lemma_render_snoc(d, i - 1);
        assert(d.take(i - 1 + 1) =~= d.take(i));
        assert(render(t) == word_chars(ws[0]) + seq![' '] + render(d.take(i)));
        let u = ws.take(i);
        assert(u.len() == i >= 2);
        assert(u[0] == ws[0]);
        assert(u.drop_first() =~= d.take(i - 1));
        assert(render(u) == word_chars(ws[0]) + seq![' '] + render(d.take(i - 1)));
        assert(d[i - 1] == ws[i]);
        assert((word_chars(ws[0]) + seq![' ']) + (render(d.take(i - 1)) + seq![' '] + word_chars(
            ws[i],
        )) =~= ((word_chars(ws[0]) + seq![' ']) + render(d.take(i - 1))) + seq![' '] + word_chars(
            ws[i],
        ));
    }
}

impl Word {
    /// The rendered text form of this symbol.
    pub fn text(&self) -> (r: &'static str)
        ensures
            r@ == word_chars(*self),
    {
        match self {
            Word::A => {
                let t = "追求极致";
                proof {
                    reveal_strlit("追求极致");
                    assert(t@ =~= word_chars(Word::A));
                }
                t
            },
            Word::B => {
                let t = "务实敢为";
                proof {
                    reveal_strlit("务实敢为");
                    assert(t@ =~= word_chars(Word::B));
                }
                t
            },
            Word::C => {
                let t = "开放谦逊";
                proof {
                    reveal_strlit("开放谦逊");
                    assert(t@ =~= word_chars(Word::C));
                }
                t
            },
            Word::D => {
                let t = "始终创业";
                proof {
                    reveal_strlit("始终创业");
                    assert(t@ =~= word_chars(Word::D));
                }
                t
            },
            Word::E => {
                let t = "多元兼容";
                proof {
                    reveal_strlit("多元兼容");
                    assert(t@ =~= word_chars(Word::E));
                }
                t
            },
        }
    }

    /// The rendered text form of this symbol, as an owned string.
    pub fn to_string(&self) -> (r: String)
        ensures
            r@ == word_chars(*self),
    {
        self.text().to_owned()
    }

    /// Matches one of the five symbol text forms at character position `pos`
    /// of `input`, whose character length is `len`.
    pub fn parse_from_byte_style(input: &str, pos: usize, len: usize) -> (r: Option<Word>)
        requires
            len == input@.len(),
            pos < len,
        ensures
            match r {
                Some(w) => token_at(input@.skip(pos as int), w),
                None => forall|w: Word| !token_at(input@.skip(pos as int), w),
            },
    {
        let ghost s = input@.skip(pos as int);
        proof {
            assert(s.len() == len - pos);
        }
        if len - pos < 4 {
            proof {
                assert forall|w: Word| !token_at(s, w) by {
                    assert(word_chars(w).len() == 4);
                }
            }
            return None;
        }
        let c0 = input.get_char(pos);
        let c1 = input.get_char(pos + 1);
        let c2 = input.get_char(pos + 2);
        let c3 = input.get_char(pos + 3);
        proof {
            assert(s[0] == input@[pos as int]);
            assert(s[1] == input@[pos + 1]);
            assert(s[2] == input@[pos + 2]);
            assert(s[3] == input@[pos + 3]);
        }
        let r = if c0 == '追' && c1 == '求' && c2 == '极' && c3 == '致' {
            Some(Word::A)
        } else if c0 == '务' && c1 == '实' && c2 == '敢' && c3 == '为' {
            Some(Word::B)
        } else if c0 == '开' && c1 == '放' && c2 == '谦' && c3 == '逊' {
            Some(Word::C)
        } else if c0 == '始' && c1 == '终' && c2 == '创' && c3 == '业' {
            Some(Word::D)
        } else if c0 == '多' && c1 == '元' && c2 == '兼' && c3 == '容' {
            Some(Word::E)
        } else {
            None
        };
        proof {
            match r {
                Some(w) => {
                    assert(word_chars(w) =~= s.subrange(0, 4));
                },
                None => {
                    assert forall|w: Word| !token_at(s, w) by {
                        if token_at(s, w) {
                            assert(s[0] == word_chars(w)[0]);
                            assert(s[1] == word_chars(w)[1]);
                            assert(s[2] == word_chars(w)[2]);
                            assert(s[3] == word_chars(w)[3]);
                        }
                    }
                },
            }
        }
        r
    }

    /// Matches one rule of the prefix code at bit position `pos`, in the
    /// fixed priority order; returns the symbol and how many bits the rule
    /// consumed.
    pub fn parse_from_bits(bits: &Vec<bool>, pos: usize) -> (r: (Word, usize))
        requires
            pos < bits@.len(),
        ensures
            1 <= r.1 <= 3,
            pos + r.1 <= bits@.len(),
            encode_bits(bits@.skip(pos as int)) == seq![r.0] + encode_bits(
                bits@.skip(pos as int + r.1),
            ),
    {
        let ghost s = bits@.skip(pos as int);
        let rem = bits.len() - pos;
        if rem >= 3 && !bits[pos] && !bits[pos + 1] {
            let w = if bits[pos + 2] {
                Word::B
            } else {
                Word::A
            };
            proof {
                assert(s.len() == rem);
                assert(s[0] == bits@[pos as int] && s[1] == bits@[pos + 1] && s[2] == bits@[pos
                    + 2]);
                assert(s.skip(3) =~= bits@.skip(pos as int + 3));
            }
            (w, 3)
        } else if rem >= 2 {
            let w = if !bits[pos] && !bits[pos + 1] {
                Word::A
            } else if !bits[pos] && bits[pos + 1] {
                Word::C
            } else if bits[pos] && !bits[pos + 1] {
                Word::D
            } else {
                Word::E
            };
            proof {
                assert(s.len() == rem);
                assert(s[0] == bits@[pos as int] && s[1] == bits@[pos + 1]);
                assert(w == two_bit_word(s[0], s[1]));
                assert(s.skip(2) =~= bits@.skip(pos as int + 2));
            }
            (w, 2)
        } else {
            let w = if bits[pos] {
                Word::D
            } else {
                Word::C
            };
            proof {
                assert(s.len() == rem == 1);
                assert(s[0] == bits@[pos as int]);
                assert(bits@.skip(pos as int + 1) =~= Seq::<bool>::empty());
                assert(encode_bits(s) =~= seq![w] + encode_bits(bits@.skip(pos as int + 1)));
            }
            (w, 1)
        }
    }
}

impl Words {
    /// Encodes a whole byte buffer: reads it as a bit stream and matches the
    /// prefix-code rules greedily from the first bit to the last.
    pub fn parse_from_bits(input: &[u8]) -> (r: Words)
        ensures
            r@ == encode_bits(bits_of_bytes(input@)),
    {
        let bits = bytes_to_bits(input);
        let mut words: Vec<Word> = Vec::new();
        let mut pos: usize = 0;
        proof {
            assert(bits@.skip(0) =~= bits@);
            assert(words@ + encode_bits(bits@) =~= encode_bits(bits@));
        }
        while pos < bits.len()
            invariant
                pos <= bits@.len(),
                bits@ == bits_of_bytes(input@),
                encode_bits(bits@) == words@ + encode_bits(bits@.skip(pos as int)),
            decreases bits@.len() - pos,
        {
            let (w, used) = Word::parse_from_bits(&bits, pos);
            proof {
                assert((words@ + seq![w]) + encode_bits(bits@.skip(pos as int + used))
                    =~= words@ + (seq![w] + encode_bits(bits@.skip(pos as int + used))));
            }
            words.push(w);
            pos = pos + used;
        }
        proof {
            assert(bits@.skip(pos as int) =~= Seq::<bool>::empty());
            assert(words@ + encode_bits(Seq::<bool>::empty()) =~= words@);
        }
        Words(words)
    }

    /// Tokenizes a code-word string: skips whitespace, then matches one of
    /// the five symbol text forms, until the input is exhausted; fails on a
    /// non-empty remainder that starts with none of them, carrying that
    /// remainder.
    pub fn parse_from_byte_style(input: &str) -> (r: ByteStyleResult<Words>)
        ensures
            match r {
                Ok(ws) => tokenize(input@) == Some(ws@),
                Err(e) => tokenize(input@) is None && (e matches ByteStyleError::Parse(m) && m@
                    == bad_remainder(input@)),
            },
    {
        let len = input.unicode_len();
        let mut words: Vec<Word> = Vec::new();
        let mut pos: usize = 0;
        proof {
            assert(input@.skip(0) =~= input@);
            if tokenize(input@) is Some {
                assert(Seq::<Word>::empty() + tokenize(input@)->0 =~= tokenize(input@)->0);
            }
        }
        while pos < len
            invariant
                pos <= len,
                len == input@.len(),
                tokenize(input@) == append_tokens(words@, tokenize(input@.skip(pos as int))),
                bad_remainder(input@) == bad_remainder(input@.skip(pos as int)),
            decreases len - pos,
        {
            let ghost s = input@.skip(pos as int);
            proof {
                assert(s.len() == len - pos > 0);
                assert(s[0] == input@[pos as int]);
            }
            let c = input.get_char(pos);
            if c == ' ' || c == '\t' || c == '\r' || c == '\n' {
                proof {
                    assert(is_space(s[0]));
                    assert(s.drop_first() =~= input@.skip(pos + 1));
                }
                pos = pos + 1;
            } else {
                match Word::parse_from_byte_style(input, pos, len) {
                    Some(w) => {
                        proof {
                            lemma_tokenize_step(s, w);
                            assert(s.len() >= word_chars(w).len() == 4);
                            assert(s.skip(4) =~= input@.skip(pos + 4));
                            let rest = tokenize(input@.skip(pos + 4));
                            if rest is Some {
                                assert(words@ + (seq![w] + rest->0) =~= (words@ + seq![w])
                                    + rest->0);
                            }
                        }
                        words.push(w);
                        pos = pos + 4;
                    },
                    None => {
                        proof {
                            assert(!is_space(s[0]));
                            assert(tokenize(s) is None);
                            assert(bad_remainder(s) == s);
                            assert(s =~= input@.subrange(pos as int, len as int));
                        }
                        let rem = input.substring_char(pos, len);
                        return Err(ByteStyleError::Parse(rem.to_owned()));
                    },
                }
            }
        }
        proof {
            assert(input@.skip(pos as int) =~= Seq::<char>::empty());
            assert(tokenize(Seq::<char>::empty()) == Some(Seq::<Word>::empty()));
            assert(words@ + Seq::<Word>::empty() =~= words@);
        }
        Ok(Words(words))
    }

    /// Renders the symbols as their text forms joined by single spaces.
    pub fn to_string(&self) -> (r: String)
        ensures
            r@ == render(self@),
    {
        let mut out = String::new();
        let mut i: usize = 0;
        proof {
            assert(render(self@.take(0)) =~= Seq::<char>::empty());
        }
        while i < self.0.len()
            invariant
                i <= self@.len(),
                out@ == render(self@.take(i as int)),
            decreases self@.len() - i,
        {
            let w = self.0[i];
            if i > 0 {
                out.append(" ");
                proof {
                    reveal_strlit(" ");
                    assert(" "@ =~= seq![' ']);
                }
            }
            out.append(w.text());
            proof {
                if i == 0 {
                    assert(self@.take(1).len() == 1 && self@.take(1)[0] == self@[0]);
                    assert(Seq::<char>::empty() + word_chars(self@[0]) =~= word_chars(self@[0]));
                    assert(out@ == render(self@.take(1)));
                } else {
                    lemma_render_snoc(self@, i as int);
                }
            }
            i = i + 1;
        }
        proof {
            assert(self@.take(self@.len() as int) =~= self@);
        }
        out
    }

    /// The byte buffer spelled by the symbols' bit-codes, with trailing bits
    /// that do not fill a byte dropped.
    pub fn to_bytes(&self) -> (r: Vec<u8>)
        ensures
            r@ == bytes_of_bits(words_bits(self@)),
    {
        let mut bits: Vec<bool> = Vec::new();
        let mut i: usize = 0;
        proof {
            assert(words_bits(self@.take(0)) =~= Seq::<bool>::empty());
        }
        while i < self.0.len()
            invariant
                i <= self@.len(),
                bits@ == words_bits(self@.take(i as int)),
            decreases self@.len() - i,
        {
            match self.0[i] {
                Word::A => {
                    bits.push(false);
                    bits.push(false);
                    bits.push(false);
                },
                Word::B => {
                    bits.push(false);
                    bits.push(false);
                    bits.push(true);
                },
                Word::C => {
                    bits.push(false);
                    bits.push(true);
                },
                Word::D => {
                    bits.push(true);
                    bits.push(false);
                },
                Word::E => {
                    bits.push(true);
                    bits.push(true);
                },
            }
            proof {
                let prev = self@.take(i as int);
                let w = self@[i as int];
                assert(self@.take(i + 1) =~= prev + seq![w]);
                lemma_words_bits_concat(prev, seq![w]);
                lemma_words_bits_singleton(w);
                assert(bits@ =~= words_bits(prev) + word_bits(w));
            }
            i = i + 1;
        }
        proof {
            assert(self@.take(i as int) =~= self@);
        }
        bits_to_bytes(&bits)
    }
}

} // verus!
