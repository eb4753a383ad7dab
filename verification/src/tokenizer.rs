//! Structure-aware tokenizer.
//!
//! A source string is cut into maximal runs of same-class code points:
//! whitespace, word characters (alphanumeric or `_`), bracket characters
//! (each one its own token), and everything else.  Whenever a whitespace
//! run containing a newline changes the trailing-line indentation, a
//! zero-length `BlockStart` or `BlockEnd` marker is emitted right after it.
//! Offsets and indentation widths are measured in UTF-8 bytes.

use vstd::prelude::*;
use vstd::string::StrSliceExecFns;
use vstd::utf8::encode_utf8;

use crate::chars::{
    char_is_alphanumeric, char_is_whitespace, is_alphanumeric_char, is_whitespace_char,
    lemma_utf8_len_concat, utf8_len,
};

verus! {

/// The kind tag of a token.  Block markers carry the indentation width in
/// bytes: the new width for a `BlockStart`, the previous one for a
/// `BlockEnd`.
#[derive(Clone, Copy, Debug, PartialEq, Eq, Structural)]
pub enum TokenType {
    WhiteSpace,
    SpecialCharacter,
    Word,
    BlockStart(usize),
    BlockEnd(usize),
}

/// A lexeme: its text, the byte offset of its start in the source, and a
/// kind tag.  Block markers have empty text.
#[derive(Debug)]
pub struct Token {
    /// Text of the token.
    pub text: String,
    /// Byte offset of the start of the token in the original text; the end
    /// is the start plus the byte length of the text.
    pub start: usize,
    /// The kind tag.
    pub t: TokenType,
}

/// The mathematical image of a [`Token`]: its character sequence, start
/// offset and kind.
pub ghost struct TokenView {
    pub text: Seq<char>,
    pub start: int,
    pub t: TokenType,
}

impl View for Token {
    type V = TokenView;

    open spec fn view(&self) -> TokenView {
        TokenView { text: self.text@, start: self.start as int, t: self.t }
    }
}

impl TokenView {
    /// Whether the token is a whitespace token.
    pub open spec fn is_whitespace(self) -> bool {
        self.t is WhiteSpace
    }

    /// Whether the token is a synthetic block marker.
    pub open spec fn is_block_marker(self) -> bool {
        self.t is BlockStart || self.t is BlockEnd
    }
}

impl Clone for Token {
    fn clone(&self) -> (r: Self)
        ensures
            r == *self,
    {
        Token { text: self.text.clone(), start: self.start, t: self.t }
    }
}

impl PartialEq for Token {
    /// Two tokens are equal when their kinds match and their texts are
    /// equal; where they came from does not matter.
    fn eq(&self, other: &Self) -> (r: bool) {
        self.t == other.t && self.text == other.text
    }
}

impl vstd::std_specs::cmp::PartialEqSpecImpl for Token {
    open spec fn obeys_eq_spec() -> bool {
        true
    }

    open spec fn eq_spec(&self, other: &Self) -> bool {
        self.t == other.t && self.text@ == other.text@
    }
}

impl Token {
    /// The token's text.
    pub fn text(&self) -> (r: &str)
        ensures
            r@ == self@.text,
    {
        self.text.as_str()
    }

    /// The token's start offset in bytes.
    pub fn start(&self) -> (r: usize)
        ensures
            r == self@.start,
    {
        self.start
    }

    /// Whether the token is a whitespace token.
    pub fn is_whitespace(&self) -> (r: bool)
        ensures
            r == self@.is_whitespace(),
    {
        match self.t {
            TokenType::WhiteSpace => true,
            _ => false,
        }
    }
}

/// The classification of a single code point.
#[derive(Clone, Copy, Debug, PartialEq, Eq, Structural)]
pub enum CharType {
    WhiteSpace,
    Word,
    BlockChar,
    Other,
}

/// Classification of one code point: whitespace, word constituent
/// (alphanumeric or underscore), bracket, or other.
pub open spec fn spec_char_type(c: char) -> CharType {
    if char_is_whitespace(c) {
        CharType::WhiteSpace
    } else if char_is_alphanumeric(c) || c == '_' {
        CharType::Word
    } else if c == '(' || c == ')' || c == '[' || c == ']' || c == '{' || c == '}' {
        CharType::BlockChar
    } else {
        CharType::Other
    }
}

/// Classify one code point.
pub fn char_type(c: char) -> (t: CharType)
    ensures
        t == spec_char_type(c),
{
    if is_whitespace_char(c) {
        CharType::WhiteSpace
    } else if is_alphanumeric_char(c) || c == '_' {
        CharType::Word
    } else if c == '(' || c == ')' || c == '[' || c == ']' || c == '{' || c == '}' {
        CharType::BlockChar
    } else {
        CharType::Other
    }
}

/// The token kind that a run of the given character class produces.
pub open spec fn kind_of_class(ct: CharType) -> TokenType {
    match ct {
        CharType::WhiteSpace => TokenType::WhiteSpace,
        CharType::Word => TokenType::Word,
        CharType::BlockChar => TokenType::SpecialCharacter,
        CharType::Other => TokenType::SpecialCharacter,
    }
}

/// How many consecutive code points starting at `j` have class `ct`.
pub open spec fn ext_len(src: Seq<char>, j: int, ct: CharType) -> nat
    decreases src.len() - j,
{
    if j < 0 || j >= src.len() || spec_char_type(src[j]) != ct {
        0
    } else {
        1 + ext_len(src, j + 1, ct)
    }
}

/// The length of the maximal run starting at `i`: a single code point for
/// brackets, the full same-class run otherwise.
pub open spec fn run_len(src: Seq<char>, i: int) -> int
    recommends
        0 <= i < src.len(),
{
    if spec_char_type(src[i]) is BlockChar {
        1
    } else {
        ext_len(src, i, spec_char_type(src[i])) as int
    }
}

/// `ext_len` never runs past the end of the source.
pub proof fn lemma_ext_len_bound(src: Seq<char>, j: int, ct: CharType)
    requires
        0 <= j <= src.len(),
    ensures
        ext_len(src, j, ct) <= src.len() - j,
    decreases src.len() - j,
{
    if j < src.len() && spec_char_type(src[j]) == ct {
        lemma_ext_len_bound(src, j + 1, ct);
    }
}

/// The index of the last newline in `cs`, or `-1` when there is none.
pub open spec fn last_newline_index(cs: Seq<char>) -> int
    decreases cs.len(),
{
    if cs.len() == 0 {
        -1
    } else if cs[cs.len() - 1] == '\n' {
        cs.len() - 1
    } else {
        last_newline_index(cs.take(cs.len() - 1))
    }
}

/// Whether `cs` contains a newline.
pub open spec fn has_newline(cs: Seq<char>) -> bool {
    last_newline_index(cs) >= 0
}

/// The indentation carried by a whitespace run: the byte length of what
/// follows its last newline.
pub open spec fn trailing_indent(cs: Seq<char>) -> nat
    recommends
        has_newline(cs),
{
    utf8_len(cs.skip(last_newline_index(cs) + 1))
}

/// The token stream of `src` from character position `i` on, where `byte`
/// is the byte offset of position `i` and `prev_ind` the indentation in
/// force.  This is the reference tokenization that [`TokenParser`] is
/// proved to produce.
pub open spec fn spec_tokens(src: Seq<char>, i: int, byte: int, prev_ind: int) -> Seq<TokenView>
    decreases src.len() - i,
    via spec_tokens_decreases
{
    if i < 0 || i >= src.len() {
        Seq::empty()
    } else {
        let ct = spec_char_type(src[i]);
        let rl = if ct is BlockChar {
            1
        } else {
            1 + ext_len(src, i + 1, ct) as int
        };
        let run = src.subrange(i, i + rl);
        let blen = utf8_len(run) as int;
        let tok = (TokenView { text: run, start: byte, t: kind_of_class(ct) });
        if ct is WhiteSpace && has_newline(run) && trailing_indent(run) != prev_ind {
            let cur = trailing_indent(run) as int;
            let marker = (TokenView {
                text: Seq::empty(),
                start: byte + blen,
                t: if cur < prev_ind {
                    TokenType::BlockEnd(prev_ind as usize)
                } else {
                    TokenType::BlockStart(cur as usize)
                },
            });
            seq![tok, marker] + spec_tokens(src, i + rl, byte + blen, cur)
        } else {
            seq![tok] + spec_tokens(src, i + rl, byte + blen, prev_ind)
        }
    }
}

#[via_fn]
proof fn spec_tokens_decreases(src: Seq<char>, i: int, byte: int, prev_ind: int) {
    if 0 <= i < src.len() {
        lemma_ext_len_bound(src, i + 1, spec_char_type(src[i]));
    }
}

/// `run_len` agrees with the run length used inside `spec_tokens`.
pub proof fn lemma_run_len_agrees(src: Seq<char>, i: int)
    requires
        0 <= i < src.len(),
    ensures
        run_len(src, i) == if spec_char_type(src[i]) is BlockChar {
            1int
        } else {
            1 + ext_len(src, i + 1, spec_char_type(src[i])) as int
        },
{
    let ct = spec_char_type(src[i]);
    if !(ct is BlockChar) {
        assert(ext_len(src, i, ct) == 1 + ext_len(src, i + 1, ct));
    }
}

/// When every code point of `[j, e)` has class `ct` and `e` is the end of
/// the source or a differently classified code point, the same-class
/// prefix from `j` is exactly `e - j` long.
pub proof fn lemma_ext_len_exact(src: Seq<char>, j: int, e: int, ct: CharType)
    requires
        0 <= j <= e <= src.len(),
        forall|k: int| j <= k < e ==> spec_char_type(#[trigger] src[k]) == ct,
        e == src.len() || spec_char_type(src[e]) != ct,
    ensures
        ext_len(src, j, ct) == e - j,
    decreases e - j,
{
    if j < e {
        lemma_ext_len_exact(src, j + 1, e, ct);
    }
}

/// A position holding a newline with none after it is the last newline.
pub proof fn lemma_last_newline_exact(cs: Seq<char>, k: int)
    requires
        0 <= k < cs.len(),
        cs[k] == '\n',
        forall|j: int| k < j < cs.len() ==> #[trigger] cs[j] != '\n',
    ensures
        last_newline_index(cs) == k,
    decreases cs.len(),
{
    if k < cs.len() - 1 {
        let head = cs.take(cs.len() - 1);
        assert(head[k] == cs[k]);
        assert forall|j: int| k < j < head.len() implies #[trigger] head[j] != '\n' by {
            assert(head[j] == cs[j]);
        }
        lemma_last_newline_exact(head, k);
    }
}

/// A sequence without newlines has no last newline.
pub proof fn lemma_no_newline(cs: Seq<char>)
    requires
        forall|j: int| 0 <= j < cs.len() ==> #[trigger] cs[j] != '\n',
    ensures
        last_newline_index(cs) == -1,
    decreases cs.len(),
{
    if cs.len() > 0 {
        let head = cs.take(cs.len() - 1);
        assert forall|j: int| 0 <= j < head.len() implies #[trigger] head[j] != '\n' by {
            assert(head[j] == cs[j]);
        }
        lemma_no_newline(head);
    }
}

/// Lazy producer of the token stream of one source string.
pub struct TokenParser<'a> {
    source: &'a str,
    /// Index, in characters, of the next unread code point.
    position: usize,
    /// Total number of code points in the source.
    len_chars: usize,
    /// Byte offset corresponding to `position`.
    byte_position: usize,
    /// A block marker waiting to be yielded before the source is read on.
    next_token: Option<Token>,
    /// Indentation, in bytes, of the line being read.
    prev_indentation: usize,
}

impl<'a> TokenParser<'a> {
    /// The parser's source text.
    pub closed spec fn src(&self) -> Seq<char> {
        self.source@
    }

    /// Internal consistency: the position is inside the source and the
    /// byte offset measures the consumed prefix.
    pub closed spec fn wf(&self) -> bool {
        &&& self.position <= self.source@.len()
        &&& self.len_chars == self.source@.len()
        &&& self.byte_position == utf8_len(self.source@.take(self.position as int))
        &&& utf8_len(self.source@) <= usize::MAX
    }

    /// The tokens this parser has yet to yield.
    pub closed spec fn remaining(&self) -> Seq<TokenView> {
        let rest = spec_tokens(
            self.source@,
            self.position as int,
            self.byte_position as int,
            self.prev_indentation as int,
        );
        match self.next_token {
            Some(m) => seq![m@] + rest,
            None => rest,
        }
    }

    /// Set up a parser over `text`, positioned at its start.
    pub fn parse(text: &'a str) -> (p: TokenParser<'a>)
        ensures
            p.wf(),
            p.src() == text@,
            p.remaining() == spec_tokens(text@, 0, 0, 0),
    {
        let total_bytes = text.as_bytes().len();
        let len_chars = text.unicode_len();
        proof {
            assert(text@.take(0) =~= Seq::<char>::empty());
            assert(encode_utf8(Seq::<char>::empty()) =~= Seq::<u8>::empty());
        }
        TokenParser {
            source: text,
            position: 0,
            len_chars,
            byte_position: 0,
            next_token: None,
            prev_indentation: 0,
        }
    }

    /// Yield the next token, or `None` once the source is exhausted.
    #[verifier::rlimit(60)]
    pub fn next(&mut self) -> (r: Option<Token>)
        requires
            old(self).wf(),
        ensures
            final(self).wf(),
            final(self).src() == old(self).src(),
            match r {
                Some(t) => old(self).remaining().len() > 0 && t@ == old(self).remaining()[0]
                    && final(self).remaining() == old(self).remaining().drop_first(),
                None => old(self).remaining().len() == 0 && final(self).remaining().len() == 0,
            },
    {
        let source = self.source;
        let ghost src = source@;
        let pending = self.next_token.take();
        if let Some(t) = pending {
            proof {
                let rest = spec_tokens(
                    src,
                    self.position as int,
                    self.byte_position as int,
                    self.prev_indentation as int,
                );
                assert(old(self).remaining() == seq![t@] + rest);
                assert((seq![t@] + rest).drop_first() =~= rest);
            }
            return Some(t);
        }
        if self.position >= self.len_chars {
            return None;
        }
        let position = self.position;
        let len_chars = self.len_chars;
        let ghost i0 = self.position as int;
        let ghost byte0 = self.byte_position as int;
        let c = source.get_char(position);
        let ct = char_type(c);
        let mut end: usize = position + 1;
        if !matches!(ct, CharType::BlockChar) {
            loop
                invariant
                    src == source@,
                    len_chars == src.len(),
                    position < len_chars,
                    ct == spec_char_type(src[position as int]),
                    position < end <= len_chars,
                    forall|k: int| position < k < end ==> spec_char_type(#[trigger] src[k]) == ct,
                ensures
                    position < end <= len_chars,
                    forall|k: int| position < k < end ==> spec_char_type(#[trigger] src[k]) == ct,
                    end == len_chars || spec_char_type(src[end as int]) != ct,
                decreases len_chars - end,
            {
                if end >= len_chars {
                    break ;
                }
                let c2 = source.get_char(end);
                if char_type(c2) != ct {
                    break ;
                }
                end = end + 1;
            }
        }
        proof {
            if matches!(ct, CharType::BlockChar) {
                assert(run_len(src, i0) == 1);
            } else {
                lemma_ext_len_exact(src, i0 + 1, end as int, ct);
                lemma_run_len_agrees(src, i0);
            }
            assert(run_len(src, i0) == end - i0);
        }
        let ghost rl = end - i0;
        let ghost run = src.subrange(i0, i0 + rl);
        let text_slice = source.substring_char(position, end);
        let token_bytes = text_slice.as_bytes().len();
        proof {
            assert(src.take(end as int) =~= src.take(i0) + run);
            lemma_utf8_len_concat(src.take(i0), run);
            assert(src =~= src.take(end as int) + src.skip(end as int));
            lemma_utf8_len_concat(src.take(end as int), src.skip(end as int));
            assert(self.byte_position + token_bytes == utf8_len(src.take(end as int)));
            assert(self.byte_position + token_bytes <= utf8_len(src));
        }
        let kind = match ct {
            CharType::WhiteSpace => TokenType::WhiteSpace,
            CharType::Word => TokenType::Word,
            CharType::BlockChar => TokenType::SpecialCharacter,
            CharType::Other => TokenType::SpecialCharacter,
        };
        let token = Token { text: text_slice.to_owned(), start: self.byte_position, t: kind };
        let new_byte = self.byte_position + token_bytes;
        if matches!(ct, CharType::WhiteSpace) {
            // Find the last newline of the run, if any.
            let run_chars = end - position;
            let mut k: usize = run_chars;
            let mut newline_at: Option<usize> = None;
            loop
                invariant_except_break
                    newline_at is None,
                    forall|j: int| k <= j < run.len() ==> #[trigger] run[j] != '\n',
                invariant
                    text_slice@ == run,
                    run.len() == run_chars,
                    k <= run_chars,
                ensures
                    text_slice@ == run,
                    match newline_at {
                        Some(nk) => nk < run_chars && run[nk as int] == '\n' && (forall|j: int|
                            nk < j < run.len() ==> #[trigger] run[j] != '\n'),
                        None => forall|j: int| 0 <= j < run.len() ==> #[trigger] run[j] != '\n',
                    },
                decreases k,
            {
                if k == 0 {
                    break ;
                }
                k = k - 1;
                let c2 = text_slice.get_char(k);
                if c2 == '\n' {
                    newline_at = Some(k);
                    break ;
                }
            }
            if let Some(nk) = newline_at {
                proof {
                    lemma_last_newline_exact(run, nk as int);
                }
                let indent_slice = text_slice.substring_char(nk + 1, run_chars);
                let current_indentation = indent_slice.as_bytes().len();
                proof {
                    assert(run.skip(nk + 1) =~= run.subrange(nk + 1, run.len() as int));
                    assert(current_indentation == trailing_indent(run));
                }
                if current_indentation != self.prev_indentation {
                    let marker = Token {
                        text: String::new(),
                        start: new_byte,
                        t: if current_indentation < self.prev_indentation {
                            TokenType::BlockEnd(self.prev_indentation)
                        } else {
                            TokenType::BlockStart(current_indentation)
                        },
                    };
                    self.next_token = Some(marker);
                    self.prev_indentation = current_indentation;
                }
            } else {
                proof {
                    lemma_no_newline(run);
                }
            }
        }
        self.position = end;
        self.byte_position = new_byte;
        proof {
            let rest = spec_tokens(
                src,
                i0 + rl,
                byte0 + utf8_len(run),
                self.prev_indentation as int,
            );
            let tokv = (TokenView { text: run, start: byte0, t: kind_of_class(ct) });
            assert(token@ == tokv);
            match &self.next_token {
                Some(marker) => {
                    let markv = marker@;
                    assert(old(self).remaining() == seq![tokv, markv] + rest);
                    assert((seq![tokv, markv] + rest).drop_first() =~= seq![markv] + rest);
                    assert(self.remaining() == seq![markv] + rest);
                },
                None => {
                    assert(old(self).remaining() == seq![tokv] + rest);
                    assert((seq![tokv] + rest).drop_first() =~= rest);
                },
            }
        }
        Some(token)
    }
}

/// The texts of all ordinary tokens, concatenated; block markers are
/// skipped (their texts are empty anyway).
pub open spec fn concat_nonblock_texts(toks: Seq<TokenView>) -> Seq<char>
    decreases toks.len(),
{
    if toks.len() == 0 {
        Seq::empty()
    } else if toks[0].is_block_marker() {
        concat_nonblock_texts(toks.drop_first())
    } else {
        toks[0].text + concat_nonblock_texts(toks.drop_first())
    }
}

/// Tokenizer totality: concatenating the texts of the ordinary tokens of
/// the stream from position `i` on reproduces the unread part of the
/// source, byte for byte.
pub proof fn lemma_tokenizer_totality(src: Seq<char>, i: int, byte: int, prev: int)
    requires
        0 <= i <= src.len(),
    ensures
        concat_nonblock_texts(spec_tokens(src, i, byte, prev)) == src.skip(i),
    decreases src.len() - i,
{
    if i >= src.len() {
        assert(src.skip(i) =~= Seq::empty());
    } else {
        let ct = spec_char_type(src[i]);
        let rl = if ct is BlockChar {
            1int
        } else {
            1 + ext_len(src, i + 1, ct) as int
        };
        lemma_ext_len_bound(src, i + 1, ct);
        let run = src.subrange(i, i + rl);
        let blen = utf8_len(run) as int;
        let toks = spec_tokens(src, i, byte, prev);
        if ct is WhiteSpace && has_newline(run) && trailing_indent(run) != prev {
            let cur = trailing_indent(run) as int;
            let rest = spec_tokens(src, i + rl, byte + blen, cur);
            lemma_tokenizer_totality(src, i + rl, byte + blen, cur);
            let marker = toks[1];
            assert(toks.drop_first() =~= seq![marker] + rest);
            assert((seq![marker] + rest).drop_first() =~= rest);
            assert(concat_nonblock_texts(toks) == run + concat_nonblock_texts(
                seq![marker] + rest,
            ));
        } else {
            let rest = spec_tokens(src, i + rl, byte + blen, prev);
            lemma_tokenizer_totality(src, i + rl, byte + blen, prev);
            assert(toks.drop_first() =~= rest);
        }
        assert(src.skip(i) =~= run + src.skip(i + rl));
    }
}

/// Tokens of a stream beginning at byte offset `byte` do not overlap:
/// none starts before `byte`, and every token starts at or after the end
/// of the one before it.  Two tokens can therefore share a start offset
/// only when the earlier one is zero-length, i.e. a block marker.
pub open spec fn stream_offsets_ok(toks: Seq<TokenView>, byte: int) -> bool {
    &&& forall|k: int| 0 <= k < toks.len() ==> (#[trigger] toks[k]).start >= byte
    &&& forall|k: int|
        0 <= k && k + 1 < toks.len() ==> toks[k + 1].start >= (#[trigger] toks[k]).start
            + utf8_len(toks[k].text)
}

/// The reference tokenization satisfies [`stream_offsets_ok`].
#[verifier::rlimit(60)]
pub proof fn lemma_token_stream_offsets(src: Seq<char>, i: int, byte: int, prev_ind: int)
    requires
        0 <= i <= src.len(),
    ensures
        stream_offsets_ok(spec_tokens(src, i, byte, prev_ind), byte),
    decreases src.len() - i,
{
    if 0 <= i < src.len() {
        let toks = spec_tokens(src, i, byte, prev_ind);
        let ct = spec_char_type(src[i]);
        let rl = if ct is BlockChar {
            1int
        } else {
            1 + ext_len(src, i + 1, ct) as int
        };
        lemma_ext_len_bound(src, i + 1, ct);
        let run = src.subrange(i, i + rl);
        let blen = utf8_len(run) as int;
        if ct is WhiteSpace && has_newline(run) && trailing_indent(run) != prev_ind {
            let cur = trailing_indent(run) as int;
            let rest = spec_tokens(src, i + rl, byte + blen, cur);
            lemma_token_stream_offsets(src, i + rl, byte + blen, cur);
            assert forall|k: int| 0 <= k < toks.len() implies (#[trigger] toks[k]).start
                >= byte by {
                if k >= 2 {
                    assert(toks[k] == rest[k - 2]);
                }
            }
            assert forall|k: int| 0 <= k && k + 1 < toks.len() implies toks[k + 1].start >= (
            #[trigger] toks[k]).start + utf8_len(toks[k].text) by {
                if k >= 2 {
                    assert(toks[k] == rest[k - 2]);
                    assert(toks[k + 1] == rest[k - 1]);
                } else if k == 1 {
                    assert(toks[2] == rest[0]);
                }
            }
        } else {
            let rest = spec_tokens(src, i + rl, byte + blen, prev_ind);
            lemma_token_stream_offsets(src, i + rl, byte + blen, prev_ind);
            assert forall|k: int| 0 <= k < toks.len() implies (#[trigger] toks[k]).start
                >= byte by {
                if k >= 1 {
                    assert(toks[k] == rest[k - 1]);
                }
            }
            assert forall|k: int| 0 <= k && k + 1 < toks.len() implies toks[k + 1].start >= (
            #[trigger] toks[k]).start + utf8_len(toks[k].text) by {
                if k >= 1 {
                    assert(toks[k] == rest[k - 1]);
                    assert(toks[k + 1] == rest[k]);
                } else {
                    assert(toks[1] == rest[0]);
                }
            }
        }
    }
}

/// Whether every whitespace token has at least one character of text.
/// Zero-length tokens are always block markers.
pub open spec fn whitespace_tokens_nonempty(toks: Seq<TokenView>) -> bool {
    forall|k: int|
        0 <= k < toks.len() && (#[trigger] toks[k]).is_whitespace() ==> toks[k].text.len() >= 1
}

/// The reference tokenization gives every whitespace token its run, which
/// holds at least one character.
pub proof fn lemma_ws_tokens_nonempty(src: Seq<char>, i: int, byte: int, prev_ind: int)
    requires
        0 <= i <= src.len(),
    ensures
        whitespace_tokens_nonempty(spec_tokens(src, i, byte, prev_ind)),
    decreases src.len() - i,
{
    if 0 <= i < src.len() {
        let toks = spec_tokens(src, i, byte, prev_ind);
        let ct = spec_char_type(src[i]);
        let rl = if ct is BlockChar {
            1int
        } else {
            1 + ext_len(src, i + 1, ct) as int
        };
        lemma_ext_len_bound(src, i + 1, ct);
        let run = src.subrange(i, i + rl);
        let blen = utf8_len(run) as int;
        if ct is WhiteSpace && has_newline(run) && trailing_indent(run) != prev_ind {
            let cur = trailing_indent(run) as int;
            let rest = spec_tokens(src, i + rl, byte + blen, cur);
            lemma_ws_tokens_nonempty(src, i + rl, byte + blen, cur);
            assert forall|k: int|
                0 <= k < toks.len() && (#[trigger] toks[k]).is_whitespace() implies toks[k].text.len()
                >= 1 by {
                if k >= 2 {
                    assert(toks[k] == rest[k - 2]);
                }
            }
        } else {
            let rest = spec_tokens(src, i + rl, byte + blen, prev_ind);
            lemma_ws_tokens_nonempty(src, i + rl, byte + blen, prev_ind);
            assert forall|k: int|
                0 <= k < toks.len() && (#[trigger] toks[k]).is_whitespace() implies toks[k].text.len()
                >= 1 by {
                if k >= 1 {
                    assert(toks[k] == rest[k - 1]);
                }
            }
        }
    }
}

/// Whether every block marker has empty text.
pub open spec fn block_markers_empty(toks: Seq<TokenView>) -> bool {
    forall|k: int|
        0 <= k < toks.len() && (#[trigger] toks[k]).is_block_marker() ==> toks[k].text.len() == 0
}

/// The reference tokenization gives every block marker empty text.
pub proof fn lemma_block_markers_empty(src: Seq<char>, i: int, byte: int, prev_ind: int)
    requires
        0 <= i <= src.len(),
    ensures
        block_markers_empty(spec_tokens(src, i, byte, prev_ind)),
    decreases src.len() - i,
{
    if 0 <= i < src.len() {
        let toks = spec_tokens(src, i, byte, prev_ind);
        let ct = spec_char_type(src[i]);
        let rl = if ct is BlockChar {
            1int
        } else {
            1 + ext_len(src, i + 1, ct) as int
        };
        lemma_ext_len_bound(src, i + 1, ct);
        let run = src.subrange(i, i + rl);
        let blen = utf8_len(run) as int;
        if ct is WhiteSpace && has_newline(run) && trailing_indent(run) != prev_ind {
            let cur = trailing_indent(run) as int;
            let rest = spec_tokens(src, i + rl, byte + blen, cur);
            lemma_block_markers_empty(src, i + rl, byte + blen, cur);
            assert forall|k: int|
                0 <= k < toks.len() && (#[trigger] toks[k]).is_block_marker() implies toks[k].text.len()
                == 0 by {
                if k >= 2 {
                    assert(toks[k] == rest[k - 2]);
                }
            }
        } else {
            let rest = spec_tokens(src, i + rl, byte + blen, prev_ind);
            lemma_block_markers_empty(src, i + rl, byte + blen, prev_ind);
            assert forall|k: int|
                0 <= k < toks.len() && (#[trigger] toks[k]).is_block_marker() implies toks[k].text.len()
                == 0 by {
                if k >= 1 {
                    assert(toks[k] == rest[k - 1]);
                }
            }
        }
    }
}

/// Tokenize a whole source string.
pub fn tokenize(text: &str) -> (tokens: Vec<Token>)
    ensures
        crate::seq_views(tokens@) == spec_tokens(text@, 0, 0, 0),
        concat_nonblock_texts(crate::seq_views(tokens@)) == text@,
        stream_offsets_ok(crate::seq_views(tokens@), 0),
{
    let mut parser = TokenParser::parse(text);
    let mut tokens: Vec<Token> = Vec::new();
    proof {
        assert(crate::seq_views(tokens@) + parser.remaining() =~= spec_tokens(text@, 0, 0, 0));
    }
    loop
        invariant
            parser.wf(),
            crate::seq_views(tokens@) + parser.remaining() == spec_tokens(text@, 0, 0, 0),
        ensures
            crate::seq_views(tokens@) == spec_tokens(text@, 0, 0, 0),
        decreases parser.remaining().len(),
    {
        let ghost before = parser.remaining();
        match parser.next() {
            Some(t) => {
                proof {
                    assert(before =~= seq![before[0]] + before.drop_first());
                }
                tokens.push(t);
                proof {
                    assert(crate::seq_views(tokens@) =~= crate::seq_views(tokens@.drop_last())
                        .push(t@));
                    assert(crate::seq_views(tokens@) + parser.remaining() =~= spec_tokens(
                        text@,
                        0,
                        0,
                        0,
                    ));
                }
            },
            None => {
                proof {
                    assert(crate::seq_views(tokens@) + parser.remaining() =~= crate::seq_views(
                        tokens@,
                    ));
                }
                break ;
            },
        }
    }
    proof {
        lemma_tokenizer_totality(text@, 0, 0, 0);
        lemma_token_stream_offsets(text@, 0, 0, 0);
        assert(text@.skip(0) =~= text@);
    }
    tokens
}

/// The subsequence of tokens that the aligner works on: everything that
/// is not whitespace, block markers included.
pub open spec fn significant_views(toks: Seq<TokenView>) -> Seq<TokenView>
    decreases toks.len(),
{
    if toks.len() == 0 {
        Seq::empty()
    } else if toks[0].is_whitespace() {
        significant_views(toks.drop_first())
    } else {
        seq![toks[0]] + significant_views(toks.drop_first())
    }
}

/// The subsequence of whitespace tokens.
pub open spec fn whitespace_views(toks: Seq<TokenView>) -> Seq<TokenView>
    decreases toks.len(),
{
    if toks.len() == 0 {
        Seq::empty()
    } else if toks[0].is_whitespace() {
        seq![toks[0]] + whitespace_views(toks.drop_first())
    } else {
        whitespace_views(toks.drop_first())
    }
}

/// Appending a token extends exactly one of the two subsequences.
pub proof fn lemma_partition_push(toks: Seq<TokenView>, t: TokenView)
    ensures
        significant_views(toks.push(t)) == if t.is_whitespace() {
            significant_views(toks)
        } else {
            significant_views(toks).push(t)
        },
        whitespace_views(toks.push(t)) == if t.is_whitespace() {
            whitespace_views(toks).push(t)
        } else {
            whitespace_views(toks)
        },
    decreases toks.len(),
{
    if toks.len() == 0 {
        assert(toks.push(t).drop_first() =~= toks);
        assert(toks.push(t)[0] == t);
        if t.is_whitespace() {
            assert(whitespace_views(toks.push(t)) =~= whitespace_views(toks).push(t));
            assert(significant_views(toks.push(t)) =~= significant_views(toks));
        } else {
            assert(significant_views(toks.push(t)) =~= significant_views(toks).push(t));
            assert(whitespace_views(toks.push(t)) =~= whitespace_views(toks));
        }
    } else {
        assert(toks.push(t)[0] == toks[0]);
        assert(toks.push(t).drop_first() =~= toks.drop_first().push(t));
        lemma_partition_push(toks.drop_first(), t);
        if t.is_whitespace() {
            assert(whitespace_views(toks.push(t)) =~= whitespace_views(toks).push(t));
            assert(significant_views(toks.push(t)) =~= significant_views(toks));
        } else {
            assert(significant_views(toks.push(t)) =~= significant_views(toks).push(t));
            assert(whitespace_views(toks.push(t)) =~= whitespace_views(toks));
        }
    }
}

/// Split a token stream into the significant tokens (everything that is
/// not whitespace, block markers included) and the whitespace tokens,
/// both in their original order.
pub fn partition_tokens(tokens: Vec<Token>) -> (r: (Vec<Token>, Vec<Token>))
    ensures
        crate::seq_views(r.0@) == significant_views(crate::seq_views(tokens@)),
        crate::seq_views(r.1@) == whitespace_views(crate::seq_views(tokens@)),
{
    let mut significant: Vec<Token> = Vec::new();
    let mut whitespace: Vec<Token> = Vec::new();
    let n = tokens.len();
    let mut i: usize = 0;
    proof {
        assert(crate::seq_views(tokens@).take(0) =~= Seq::<TokenView>::empty());
    }
    while i < n
        invariant
            n == tokens@.len(),
            i <= n,
            crate::seq_views(significant@) == significant_views(
                crate::seq_views(tokens@).take(i as int),
            ),
            crate::seq_views(whitespace@) == whitespace_views(
                crate::seq_views(tokens@).take(i as int),
            ),
        decreases n - i,
    {
        let ghost prefix = crate::seq_views(tokens@).take(i as int);
        let t = tokens[i].clone();
        proof {
            assert(crate::seq_views(tokens@).take(i + 1) =~= prefix.push(tokens@[i as int]@));
            lemma_partition_push(prefix, tokens@[i as int]@);
        }
        if t.is_whitespace() {
            whitespace.push(t);
            proof {
                assert(crate::seq_views(whitespace@) =~= crate::seq_views(
                    whitespace@.drop_last(),
                ).push(t@));
            }
        } else {
            significant.push(t);
            proof {
                assert(crate::seq_views(significant@) =~= crate::seq_views(
                    significant@.drop_last(),
                ).push(t@));
            }
        }
        i = i + 1;
    }
    proof {
        assert(crate::seq_views(tokens@).take(n as int) =~= crate::seq_views(tokens@));
    }
    (significant, whitespace)
}

} // verus!
