use vstd::prelude::*;
use vstd::utf8::*;
use crate::error::Error;

verus! {

/// Recommended size of the chunks handed to the streaming counters.
pub const BUFFER_SIZE: usize = 1048576;

/// One metric of an input: `Some(n)` when it was counted, `None` when the
/// strategy that produced it does not compute it.
#[derive(Debug, Clone, Copy, PartialEq, Eq, Structural)]
pub struct Count {
    pub val: Option<usize>,
}

/// Decimal digits of `n`, most significant first.
pub open spec fn decimal(n: nat) -> Seq<char>
    decreases n,
{
    let digit = (('0' as u32) + (n % 10) as u32) as char;
    if n < 10 {
        seq![digit]
    } else {
        decimal(n / 10).push(digit)
    }
}

pub open spec fn not_applicable() -> Seq<char> {
    seq!['N', '/', 'A']
}

/// Relies on the `Display` of `usize` (through `ToString`): the value in
/// decimal, without sign or padding.
#[verifier::external_body]
fn decimal_string(n: usize) -> (r: String)
    ensures
        r@ == decimal(n as nat),
{
    n.to_string()
}

impl Count {
    /// The value in decimal, or `N/A` when absent.
    pub fn display(&self) -> (r: String)
        ensures
            r@ == match self.val {
                Some(n) => decimal(n as nat),
                None => not_applicable(),
            },
    {
        match self.val {
            Some(n) => decimal_string(n),
            None => {
                let r = "N/A".to_owned();
                proof {
                    reveal_strlit("N/A");
                    assert(r@ =~= not_applicable());
                }
                r
            },
        }
    }
}

/// The four metrics of one input.
#[derive(Debug, Clone, Copy, PartialEq, Eq, Structural)]
pub struct Counts {
    pub bytes: Count,
    pub chars: Count,
    pub words: Count,
    pub lines: Count,
}

/// The ASCII whitespace bytes: tab, newline, form feed, carriage return, space.
pub open spec fn is_space_byte(b: u8) -> bool {
    b == 9u8 || b == 10u8 || b == 12u8 || b == 13u8 || b == 32u8
}

/// The ASCII whitespace characters, the same five as `is_space_byte`.
pub open spec fn is_space_char(c: char) -> bool {
    c == '\t' || c == '\n' || c == '\x0C' || c == '\r' || c == ' '
}

/// Number of maximal runs of `false` in a sequence of whitespace flags: one
/// for each position that holds `false` and is first or follows a `true`.
pub open spec fn count_runs(space: Seq<bool>) -> nat
    decreases space.len(),
{
    if space.len() == 0 {
        0
    } else {
        let starts = !space.last() && (space.len() == 1 || space[space.len() - 2]);
        count_runs(space.drop_last()) + if starts { 1nat } else { 0nat }
    }
}

pub open spec fn byte_spaces(s: Seq<u8>) -> Seq<bool> {
    s.map_values(|b: u8| is_space_byte(b))
}

pub open spec fn char_spaces(s: Seq<char>) -> Seq<bool> {
    s.map_values(|c: char| is_space_char(c))
}

/// Words of a byte stream: maximal non-empty runs of non-whitespace bytes.
pub open spec fn words_of_bytes(s: Seq<u8>) -> nat {
    count_runs(byte_spaces(s))
}

/// Number of bytes of `s` equal to `x`.
pub open spec fn occurrences(s: Seq<u8>, x: u8) -> nat
    decreases s.len(),
{
    if s.len() == 0 {
        0
    } else {
        occurrences(s.drop_last(), x) + if s.last() == x { 1nat } else { 0nat }
    }
}

/// Newline bytes of a byte stream.
pub open spec fn lines_of_bytes(s: Seq<u8>) -> nat {
    occurrences(s, 10u8)
}

/// Words of a text: maximal non-empty runs of non-whitespace characters.
pub open spec fn words_of_text(t: Seq<char>) -> nat {
    count_runs(char_spaces(t))
}

/// Newline characters of a text.
pub open spec fn lines_of_text(t: Seq<char>) -> nat
    decreases t.len(),
{
    if t.len() == 0 {
        0
    } else {
        lines_of_text(t.drop_last()) + if t.last() == '\n' { 1nat } else { 0nat }
    }
}

/// Length lookup: the size alone.
pub open spec fn size_counts(n: nat) -> Counts {
    Counts {
        bytes: Count { val: Some(n as usize) },
        chars: Count { val: None },
        words: Count { val: None },
        lines: Count { val: None },
    }
}

/// Byte-scan for lines alone: bytes and newline bytes.
pub open spec fn lines_counts(s: Seq<u8>) -> Counts {
    Counts {
        bytes: Count { val: Some(s.len() as usize) },
        chars: Count { val: None },
        words: Count { val: None },
        lines: Count { val: Some(lines_of_bytes(s) as usize) },
    }
}

/// Byte-scan for words and lines: bytes, words of bytes, newline bytes.
pub open spec fn words_lines_counts(s: Seq<u8>) -> Counts {
    Counts {
        bytes: Count { val: Some(s.len() as usize) },
        chars: Count { val: None },
        words: Count { val: Some(words_of_bytes(s) as usize) },
        lines: Count { val: Some(lines_of_bytes(s) as usize) },
    }
}

/// Decode-count, for a stream that is valid UTF-8: all four metrics, the
/// last three over the decoded text.
pub open spec fn text_counts(s: Seq<u8>) -> Counts {
    let t = decode_utf8(s);
    Counts {
        bytes: Count { val: Some(s.len() as usize) },
        chars: Count { val: Some(t.len() as usize) },
        words: Count { val: Some(words_of_text(t) as usize) },
        lines: Count { val: Some(lines_of_text(t) as usize) },
    }
}

pub proof fn lemma_count_runs_bound(s: Seq<bool>)
    ensures
        count_runs(s) <= s.len(),
    decreases s.len(),
{
    if s.len() > 0 {
        lemma_count_runs_bound(s.drop_last());
    }
}

/// Pushing one more element onto a sequence pushes its image onto the map.
pub proof fn lemma_map_push<A, B>(s: Seq<A>, x: A, f: spec_fn(A) -> B)
    ensures
        s.push(x).map_values(f) == s.map_values(f).push(f(x)),
        s.push(x).map_values(f).drop_last() == s.map_values(f),
{
    assert(s.push(x).map_values(f) =~= s.map_values(f).push(f(x)));
    assert(s.map_values(f).push(f(x)).drop_last() =~= s.map_values(f));
}

pub proof fn lemma_occurrences_push(s: Seq<u8>, b: u8, x: u8)
    ensures
        occurrences(s.push(b), x) == occurrences(s, x) + if b == x { 1nat } else { 0nat },
        occurrences(s, x) <= s.len(),
    decreases s.len(),
{
    assert(s.push(b).drop_last() =~= s);
    if s.len() > 0 {
        lemma_occurrences_push(s.drop_last(), s.last(), x);
        assert(s.drop_last().push(s.last()) =~= s);
    }
}

/// Occurrences in a concatenation add up.
pub proof fn lemma_occurrences_concat(a: Seq<u8>, b: Seq<u8>, x: u8)
    ensures
        occurrences(a + b, x) == occurrences(a, x) + occurrences(b, x),
    decreases b.len(),
{
    if b.len() == 0 {
        assert(a + b =~= a);
    } else {
        let c = b.last();
        let b0 = b.drop_last();
        lemma_occurrences_concat(a, b0, x);
        assert(a + b =~= (a + b0).push(c));
        assert(b =~= b0.push(c));
        lemma_occurrences_push(a + b0, c, x);
        lemma_occurrences_push(b0, c, x);
    }
}

/// A word that runs to the end of the stream is counted once; whitespace at
/// the end adds no word.
pub proof fn lemma_trailing_word(s: Seq<u8>, b: u8)
    ensures
        is_space_byte(b) ==> words_of_bytes(s.push(b)) == words_of_bytes(s),
        !is_space_byte(b) && (s.len() == 0 || is_space_byte(s.last())) ==> words_of_bytes(s.push(b))
            == words_of_bytes(s) + 1,
        !is_space_byte(b) && s.len() > 0 && !is_space_byte(s.last()) ==> words_of_bytes(s.push(b))
            == words_of_bytes(s),
{
    lemma_map_push(s, b, |b: u8| is_space_byte(b));
    let sp = byte_spaces(s.push(b));
    if s.len() > 0 {
        assert(sp[sp.len() - 2] == is_space_byte(s.last()));
    }
}

/// Tests a byte for ASCII whitespace, as `u8::is_ascii_whitespace` does.
pub fn is_ascii_space(b: u8) -> (r: bool)
    ensures
        r == is_space_byte(b),
{
    b == 9u8 || b == 10u8 || b == 12u8 || b == 13u8 || b == 32u8
}

/// Byte-scan strategy for words and lines: one pass over raw bytes,
/// classifying each byte as ASCII whitespace or not.
pub struct WordLineCounter {
    bytes: usize,
    words: usize,
    lines: usize,
    in_word: bool,
    seen: Ghost<Seq<u8>>,
}

impl View for WordLineCounter {
    type V = Seq<u8>;

    /// The bytes fed so far.
    closed spec fn view(&self) -> Seq<u8> {
        self.seen@
    }
}

impl WordLineCounter {
    pub closed spec fn wf(&self) -> bool {
        let s = self.seen@;
        &&& self.bytes == s.len()
        &&& self.lines == lines_of_bytes(s)
        &&& self.words + (if self.in_word { 1nat } else { 0nat }) == words_of_bytes(s)
        &&& self.in_word == (s.len() > 0 && !is_space_byte(s.last()))
    }

    pub fn new() -> (r: Self)
        ensures
            r.wf(),
            r@ == Seq::<u8>::empty(),
    {
        let r = WordLineCounter { bytes: 0, words: 0, lines: 0, in_word: false, seen: Ghost(Seq::empty()) };
        proof {
            assert(byte_spaces(Seq::<u8>::empty()) =~= Seq::<bool>::empty());
        }
        r
    }

    fn step(&mut self, b: u8)
        requires
            old(self).wf(),
            old(self)@.len() < usize::MAX,
        ensures
            final(self).wf(),
            final(self)@ == old(self)@.push(b),
    {
        let ghost s = self.seen@;
        let ghost t = s.push(b);
        proof {
            lemma_occurrences_push(s, b, 10u8);
            lemma_map_push(s, b, |b: u8| is_space_byte(b));
            lemma_count_runs_bound(byte_spaces(s));
            assert(t.last() == b);
            assert(t.drop_last() =~= s);
            let sp = byte_spaces(t);
            assert(sp.len() == t.len());
            if t.len() > 1 {
                assert(sp[sp.len() - 2] == is_space_byte(s.last()));
            }
        }
        self.bytes = self.bytes + 1;
        if b == 10u8 {
            self.lines = self.lines + 1;
        }
        if is_ascii_space(b) {
            if self.in_word {
                self.words = self.words + 1;
            }
            self.in_word = false;
        } else {
            self.in_word = true;
        }
        self.seen = Ghost(t);
    }

    /// Takes in the next chunk of the stream.
    pub fn feed(&mut self, chunk: &[u8])
        requires
            old(self).wf(),
            old(self)@.len() + chunk@.len() <= usize::MAX,
        ensures
            final(self).wf(),
            final(self)@ == old(self)@ + chunk@,
    {
        let mut i: usize = 0;
        while i < chunk.len()
            invariant
                self.wf(),
                i <= chunk@.len(),
                self@ == old(self)@ + chunk@.subrange(0, i as int),
                old(self)@.len() + chunk@.len() <= usize::MAX,
            decreases chunk@.len() - i,
        {
            self.step(chunk[i]);
            i = i + 1;
            assert(self@ =~= old(self)@ + chunk@.subrange(0, i as int));
        }
        assert(chunk@.subrange(0, i as int) =~= chunk@);
    }

    /// The counts of everything fed so far; a word still open at the end of
    /// the stream is counted.
    pub fn finish(&self) -> (r: Counts)
        requires
            self.wf(),
        ensures
            r == words_lines_counts(self@),
    {
        proof {
            lemma_count_runs_bound(byte_spaces(self@));
        }
        let words = if self.in_word { self.words + 1 } else { self.words };
        Counts {
            bytes: Count { val: Some(self.bytes) },
            chars: Count { val: None },
            words: Count { val: Some(words) },
            lines: Count { val: Some(self.lines) },
        }
    }
}

/// Relies on bytecount::count: the number of bytes of `haystack` equal to
/// `needle`.
#[verifier::external_body]
fn count_byte(haystack: &[u8], needle: u8) -> (r: usize)
    ensures
        r == occurrences(haystack@, needle),
{
    bytecount::count(haystack, needle)
}

/// Byte-scan strategy for lines alone: each chunk adds its length to the
/// bytes and its newline bytes to the lines.
pub struct LineCounter {
    bytes: usize,
    lines: usize,
    seen: Ghost<Seq<u8>>,
}

impl View for LineCounter {
    type V = Seq<u8>;

    /// The bytes fed so far.
    closed spec fn view(&self) -> Seq<u8> {
        self.seen@
    }
}

impl LineCounter {
    pub closed spec fn wf(&self) -> bool {
        &&& self.bytes == self.seen@.len()
        &&& self.lines == lines_of_bytes(self.seen@)
    }

    pub fn new() -> (r: Self)
        ensures
            r.wf(),
            r@ == Seq::<u8>::empty(),
    {
        LineCounter { bytes: 0, lines: 0, seen: Ghost(Seq::empty()) }
    }

    /// Takes in the next chunk of the stream.
    pub fn feed(&mut self, chunk: &[u8])
        requires
            old(self).wf(),
            old(self)@.len() + chunk@.len() <= usize::MAX,
        ensures
            final(self).wf(),
            final(self)@ == old(self)@ + chunk@,
    {
        let n = count_byte(chunk, 10u8);
        proof {
            lemma_occurrences_concat(self@, chunk@, 10u8);
            lemma_occurrences_push(self@, 0u8, 10u8);
            lemma_occurrences_push(chunk@, 0u8, 10u8);
        }
        self.bytes = self.bytes + chunk.len();
        self.lines = self.lines + n;
        self.seen = Ghost(self.seen@ + chunk@);
    }

    /// The counts of everything fed so far.
    pub fn finish(&self) -> (r: Counts)
        requires
            self.wf(),
        ensures
            r == lines_counts(self@),
    {
        Counts {
            bytes: Count { val: Some(self.bytes) },
            chars: Count { val: None },
            words: Count { val: None },
            lines: Count { val: Some(self.lines) },
        }
    }
}

/// UTF-8 encoding distributes over concatenation.
pub proof fn lemma_encode_concat(a: Seq<char>, b: Seq<char>)
    ensures
        encode_utf8(a + b) == encode_utf8(a) + encode_utf8(b),
    decreases a.len(),
{
    if a.len() == 0 {
        assert(a + b =~= b);
        assert(encode_utf8(a) + encode_utf8(b) =~= encode_utf8(b));
    } else {
        assert((a + b).drop_first() =~= a.drop_first() + b);
        assert((a + b)[0] == a[0]);
        lemma_encode_concat(a.drop_first(), b);
        assert(encode_utf8(a + b) =~= encode_utf8(a) + encode_utf8(b));
    }
}

/// Each character takes at least one byte.
pub proof fn lemma_encode_len(t: Seq<char>)
    ensures
        t.len() <= encode_utf8(t).len(),
    decreases t.len(),
{
    if t.len() > 0 {
        lemma_encode_len(t.drop_first());
    }
}

/// What one call of the UTF-8 decoder found at the front of its input.
pub enum Decoded {
    /// The whole input is valid text.
    Complete(Vec<char>),
    /// Valid text, then one to three bytes that begin a character but end
    /// before it does.
    Incomplete(Vec<char>, Vec<u8>),
    /// A byte sequence that no further input can make valid.
    Invalid,
}

/// Relies on utf8::decode: `Ok` when the input is valid UTF-8; `Incomplete`
/// with the valid prefix and the truncated last sequence (one to three
/// bytes) when the input ends inside a character; `Invalid` when it holds a
/// byte sequence that is invalid whatever follows.
#[verifier::external_body]
fn decode_chunk(input: &[u8]) -> (r: Decoded)
    ensures
        match r {
            Decoded::Complete(cs) => input@ == encode_utf8(cs@),
            Decoded::Incomplete(cs, rest) => {
                &&& input@ == encode_utf8(cs@) + rest@
                &&& 1 <= rest@.len() <= 3
                &&& !valid_utf8(rest@)
            },
            Decoded::Invalid => forall|ext: Seq<u8>| !valid_utf8(#[trigger] (input@ + ext)),
        },
{
    match utf8::decode(input) {
        Ok(text) => Decoded::Complete(text.chars().collect()),
        Err(utf8::DecodeError::Incomplete { valid_prefix, incomplete_suffix }) => {
            let n = incomplete_suffix.buffer_len as usize;
            Decoded::Incomplete(valid_prefix.chars().collect(), incomplete_suffix.buffer[..n].to_vec())
        },
        Err(utf8::DecodeError::Invalid { .. }) => Decoded::Invalid,
    }
}

/// Decode-count strategy: decodes the stream strictly as UTF-8 and counts
/// bytes, characters, words and lines of the text. A character split
/// between two chunks is held back until the next chunk completes it.
pub struct CharCounter {
    bytes: usize,
    chars: usize,
    words: usize,
    lines: usize,
    in_word: bool,
    pending: Vec<u8>,
    text: Ghost<Seq<char>>,
}

impl View for CharCounter {
    type V = Seq<u8>;

    /// The bytes fed so far.
    closed spec fn view(&self) -> Seq<u8> {
        encode_utf8(self.text@) + self.pending@
    }
}

impl CharCounter {
    closed spec fn text_wf(&self) -> bool {
        &&& self.bytes == encode_utf8(self.text@).len()
        &&& self.counts_wf()
    }

    closed spec fn counts_wf(&self) -> bool {
        let t = self.text@;
        &&& self.chars == t.len()
        &&& self.lines == lines_of_text(t)
        &&& self.words + (if self.in_word { 1nat } else { 0nat }) == words_of_text(t)
        &&& self.in_word == (t.len() > 0 && !is_space_char(t.last()))
    }

    pub closed spec fn wf(&self) -> bool {
        &&& self.text_wf()
        &&& self.pending@.len() <= 3
        &&& self.pending@.len() > 0 ==> !valid_utf8(self.pending@)
    }

    pub fn new() -> (r: Self)
        ensures
            r.wf(),
            r@ == Seq::<u8>::empty(),
    {
        let r = CharCounter {
            bytes: 0,
            chars: 0,
            words: 0,
            lines: 0,
            in_word: false,
            pending: Vec::new(),
            text: Ghost(Seq::empty()),
        };
        proof {
            assert(char_spaces(Seq::<char>::empty()) =~= Seq::<bool>::empty());
            assert(r@ =~= Seq::<u8>::empty());
        }
        r
    }

    fn step(&mut self, c: char)
        requires
            old(self).counts_wf(),
            old(self).chars < usize::MAX,
        ensures
            final(self).counts_wf(),
            final(self).text@ == old(self).text@.push(c),
            final(self).bytes == old(self).bytes,
            final(self).pending == old(self).pending,
    {
        let ghost t = self.text@;
        let ghost u = t.push(c);
        proof {
            lemma_map_push(t, c, |c: char| is_space_char(c));
            lemma_count_runs_bound(char_spaces(t));
            assert(u.last() == c);
            assert(u.drop_last() =~= t);
            let sp = char_spaces(u);
            if u.len() > 1 {
                assert(sp[sp.len() - 2] == is_space_char(t.last()));
            }
            lemma_lines_bound(t);
        }
        self.chars = self.chars + 1;
        if c == '\n' {
            self.lines = self.lines + 1;
        }
        if c == ' ' || c == '\t' || c == '\n' || c == '\x0C' || c == '\r' {
            if self.in_word {
                self.words = self.words + 1;
            }
            self.in_word = false;
        } else {
            self.in_word = true;
        }
        self.text = Ghost(u);
    }

    /// Counts the characters of `cs`, which encode to `n` bytes.
    fn take(&mut self, cs: &Vec<char>, n: usize)
        requires
            old(self).text_wf(),
            n == encode_utf8(cs@).len(),
            encode_utf8(old(self).text@).len() + n <= usize::MAX,
        ensures
            final(self).text_wf(),
            final(self).text@ == old(self).text@ + cs@,
            final(self).pending == old(self).pending,
    {
        proof {
            lemma_encode_concat(self.text@, cs@);
            lemma_encode_len(self.text@ + cs@);
        }
        let mut i: usize = 0;
        while i < cs.len()
            invariant
                self.counts_wf(),
                i <= cs@.len(),
                self.text@ == old(self).text@ + cs@.subrange(0, i as int),
                self.bytes == old(self).bytes,
                self.pending == old(self).pending,
                (old(self).text@ + cs@).len() <= encode_utf8(old(self).text@ + cs@).len(),
                encode_utf8(old(self).text@ + cs@).len() <= usize::MAX,
            decreases cs@.len() - i,
        {
            self.step(cs[i]);
            i = i + 1;
            assert(self.text@ =~= old(self).text@ + cs@.subrange(0, i as int));
        }
        assert(cs@.subrange(0, i as int) =~= cs@);
        self.bytes = self.bytes + n;
    }

    /// Takes in the next chunk of the stream. Fails when the bytes fed so far
    /// cannot begin any valid UTF-8 stream; the counter is then unchanged.
    pub fn feed(&mut self, chunk: &[u8]) -> (r: Result<(), Error>)
        requires
            old(self).wf(),
            old(self)@.len() + chunk@.len() <= usize::MAX,
        ensures
            final(self).wf(),
            r is Ok ==> final(self)@ == old(self)@ + chunk@,
            r is Err ==> final(self)@ == old(self)@ && r == Err::<(), Error>(Error::UTF8()),
            r is Err ==> forall|ext: Seq<u8>| !valid_utf8(#[trigger] (old(self)@ + chunk@ + ext)),
    {
        let mut buf: Vec<u8> = Vec::new();
        let mut i: usize = 0;
        while i < self.pending.len()
            invariant
                i <= self.pending@.len(),
                buf@ == self.pending@.subrange(0, i as int),
            decreases self.pending@.len() - i,
        {
            buf.push(self.pending[i]);
            i = i + 1;
            assert(buf@ =~= self.pending@.subrange(0, i as int));
        }
        let mut j: usize = 0;
        while j < chunk.len()
            invariant
                j <= chunk@.len(),
                buf@ == self.pending@ + chunk@.subrange(0, j as int),
            decreases chunk@.len() - j,
        {
            buf.push(chunk[j]);
            j = j + 1;
            assert(buf@ =~= self.pending@ + chunk@.subrange(0, j as int));
        }
        assert(chunk@.subrange(0, j as int) =~= chunk@);
        let ghost enc = encode_utf8(self.text@);
        assert(old(self)@ + chunk@ =~= enc + buf@);
        match decode_chunk(buf.as_slice()) {
            Decoded::Complete(cs) => {
                self.take(&cs, buf.len());
                self.pending = Vec::new();
                proof {
                    lemma_encode_concat(old(self).text@, cs@);
                    assert(self@ =~= old(self)@ + chunk@);
                }
                Ok(())
            },
            Decoded::Incomplete(cs, rest) => {
                proof {
                    lemma_encode_concat(old(self).text@, cs@);
                }
                self.take(&cs, buf.len() - rest.len());
                self.pending = rest;
                proof {
                    assert(self@ =~= old(self)@ + chunk@);
                }
                Ok(())
            },
            Decoded::Invalid => {
                proof {
                    encode_utf8_valid_utf8(old(self).text@);
                    assert forall|ext: Seq<u8>| !valid_utf8(#[trigger] (old(self)@ + chunk@ + ext)) by {
                        assert(!valid_utf8(buf@ + ext));
                        lemma_invalid_after_valid(enc, buf@ + ext);
                        assert(enc + (buf@ + ext) =~= old(self)@ + chunk@ + ext);
                    }
                }
                Err(Error::UTF8())
            },
        }
    }

    /// The counts of everything fed so far; fails when it is not valid UTF-8
    /// (such as a stream that ends inside a character).
    pub fn finish(&self) -> (r: Result<Counts, Error>)
        requires
            self.wf(),
        ensures
            r is Ok <==> valid_utf8(self@),
            r matches Ok(c) ==> c == text_counts(self@),
            r is Err ==> r == Err::<Counts, Error>(Error::UTF8()),
    {
        proof {
            encode_utf8_valid_utf8(self.text@);
        }
        if self.pending.len() > 0 {
            proof {
                lemma_invalid_after_valid(encode_utf8(self.text@), self.pending@);
            }
            return Err(Error::UTF8());
        }
        proof {
            assert(self@ =~= encode_utf8(self.text@));
            encode_utf8_decode_utf8(self.text@);
            lemma_count_runs_bound(char_spaces(self.text@));
            lemma_encode_len(self.text@);
        }
        let words = if self.in_word { self.words + 1 } else { self.words };
        Ok(Counts {
            bytes: Count { val: Some(self.bytes) },
            chars: Count { val: Some(self.chars) },
            words: Count { val: Some(words) },
            lines: Count { val: Some(self.lines) },
        })
    }
}

/// Newlines never outnumber the characters.
pub proof fn lemma_lines_bound(t: Seq<char>)
    ensures
        lines_of_text(t) <= t.len(),
    decreases t.len(),
{
    if t.len() > 0 {
        lemma_lines_bound(t.drop_last());
    }
}

/// Valid text followed by bytes that are not valid text is not valid text.
pub proof fn lemma_invalid_after_valid(a: Seq<u8>, b: Seq<u8>)
    requires
        valid_utf8(a),
        !valid_utf8(b),
    ensures
        !valid_utf8(a + b),
{
    let s = a + b;
    assert(s.subrange(0, a.len() as int) =~= a);
    assert(s.subrange(a.len() as int, s.len() as int) =~= b);
    partial_valid_partial_invalid_utf8(s, a.len() as int);
}

/// The bytes of a stream handed out as a sequence of chunks.
pub open spec fn joined(chunks: Seq<Vec<u8>>) -> Seq<u8>
    decreases chunks.len(),
{
    if chunks.len() == 0 {
        Seq::empty()
    } else {
        joined(chunks.drop_last()) + chunks.last()@
    }
}

pub proof fn lemma_joined_prefix(chunks: Seq<Vec<u8>>, i: int)
    requires
        0 <= i < chunks.len(),
    ensures
        joined(chunks.subrange(0, i + 1)) == joined(chunks.subrange(0, i)) + chunks[i]@,
        joined(chunks.subrange(0, i + 1)).len() <= joined(chunks).len(),
    decreases chunks.len(),
{
    assert(chunks.subrange(0, i + 1).drop_last() =~= chunks.subrange(0, i));
    if i + 1 < chunks.len() {
        lemma_joined_prefix(chunks.drop_last(), i);
        assert(chunks.drop_last().subrange(0, i + 1) =~= chunks.subrange(0, i + 1));
    } else {
        assert(chunks.subrange(0, i + 1) =~= chunks);
    }
}

/// Which scan a selection of metrics calls for.
#[derive(Debug, Clone, Copy, PartialEq, Eq, Structural)]
pub enum Strategy {
    /// Bytes alone, from the size of addressable storage; nothing is read.
    LengthLookup,
    /// Characters requested: strict UTF-8 decoding.
    DecodeCount,
    /// Lines without words or characters: a newline count over raw bytes.
    LinesOnly,
    /// Words and lines over raw bytes.
    WordsLines,
}

/// The cheapest strategy that computes the requested metrics; `sized` says
/// whether the input has a size that can be looked up without reading it.
pub open spec fn strategy_for(bytes: bool, chars: bool, words: bool, lines: bool, sized: bool) -> Strategy {
    if sized && bytes && !(chars || words || lines) {
        Strategy::LengthLookup
    } else if chars {
        Strategy::DecodeCount
    } else if lines && !words {
        Strategy::LinesOnly
    } else {
        Strategy::WordsLines
    }
}

pub fn select_strategy(bytes: bool, chars: bool, words: bool, lines: bool, sized: bool) -> (r: Strategy)
    ensures
        r == strategy_for(bytes, chars, words, lines, sized),
{
    if sized && bytes && !(chars || words || lines) {
        Strategy::LengthLookup
    } else if chars {
        Strategy::DecodeCount
    } else if lines && !words {
        Strategy::LinesOnly
    } else {
        Strategy::WordsLines
    }
}

/// What a streaming strategy gives for the stream `s`: `None` stands for a
/// UTF-8 error.
pub open spec fn scan_result(strategy: Strategy, s: Seq<u8>) -> Option<Counts> {
    match strategy {
        Strategy::LengthLookup => Some(size_counts(s.len())),
        Strategy::DecodeCount => if valid_utf8(s) {
            Some(text_counts(s))
        } else {
            None
        },
        Strategy::LinesOnly => Some(lines_counts(s)),
        Strategy::WordsLines => Some(words_lines_counts(s)),
    }
}

/// The streaming strategies behind one interface.
pub enum Scanner {
    Text(CharCounter),
    Lines(LineCounter),
    WordsLines(WordLineCounter),
}

impl View for Scanner {
    type V = Seq<u8>;

    closed spec fn view(&self) -> Seq<u8> {
        match self {
            Scanner::Text(c) => c@,
            Scanner::Lines(c) => c@,
            Scanner::WordsLines(c) => c@,
        }
    }
}

impl Scanner {
    pub closed spec fn wf(&self) -> bool {
        match self {
            Scanner::Text(c) => c.wf(),
            Scanner::Lines(c) => c.wf(),
            Scanner::WordsLines(c) => c.wf(),
        }
    }

    /// The strategy that this scanner runs.
    pub closed spec fn strategy(&self) -> Strategy {
        match self {
            Scanner::Text(_) => Strategy::DecodeCount,
            Scanner::Lines(_) => Strategy::LinesOnly,
            Scanner::WordsLines(_) => Strategy::WordsLines,
        }
    }

    /// A scanner for a stream, which has no size to look up.
    pub fn new(chars: bool, words: bool, lines: bool) -> (r: Self)
        ensures
            r.wf(),
            r@ == Seq::<u8>::empty(),
            r.strategy() == strategy_for(true, chars, words, lines, false),
    {
        match select_strategy(true, chars, words, lines, false) {
            Strategy::DecodeCount => Scanner::Text(CharCounter::new()),
            Strategy::LinesOnly => Scanner::Lines(LineCounter::new()),
            _ => Scanner::WordsLines(WordLineCounter::new()),
        }
    }

    /// Takes in the next chunk; fails only on a UTF-8 error of the
    /// decode-count strategy, leaving the scanner unchanged.
    pub fn feed(&mut self, chunk: &[u8]) -> (r: Result<(), Error>)
        requires
            old(self).wf(),
            old(self)@.len() + chunk@.len() <= usize::MAX,
        ensures
            final(self).wf(),
            final(self).strategy() == old(self).strategy(),
            r is Ok ==> final(self)@ == old(self)@ + chunk@,
            r is Err ==> r == Err::<(), Error>(Error::UTF8()) && old(self).strategy() == Strategy::DecodeCount,
            r is Err ==> forall|ext: Seq<u8>| !valid_utf8(#[trigger] (old(self)@ + chunk@ + ext)),
    {
        match self {
            Scanner::Text(c) => c.feed(chunk),
            Scanner::Lines(c) => {
                c.feed(chunk);
                Ok(())
            },
            Scanner::WordsLines(c) => {
                c.feed(chunk);
                Ok(())
            },
        }
    }

    /// The counts of the stream fed so far.
    pub fn finish(&self) -> (r: Result<Counts, Error>)
        requires
            self.wf(),
        ensures
            r is Ok <==> scan_result(self.strategy(), self@) is Some,
            r matches Ok(c) ==> scan_result(self.strategy(), self@) == Some(c),
            r is Err ==> r == Err::<Counts, Error>(Error::UTF8()),
    {
        match self {
            Scanner::Text(c) => c.finish(),
            Scanner::Lines(c) => Ok(c.finish()),
            Scanner::WordsLines(c) => Ok(c.finish()),
        }
    }
}

/// Counts a stream handed out as chunks with the strategy that the selection
/// calls for; the stream has no size to look up, so bytes alone are counted
/// by the words-and-lines scan.
pub fn count_readable(chunks: &[Vec<u8>], bytes: bool, chars: bool, words: bool, lines: bool) -> (r: Result<Counts, Error>)
    requires
        joined(chunks@).len() <= usize::MAX,
    ensures
        ({
            let expected = scan_result(strategy_for(bytes, chars, words, lines, false), joined(chunks@));
            &&& r is Ok <==> expected is Some
            &&& r matches Ok(c) ==> expected == Some(c)
            &&& r is Err ==> r == Err::<Counts, Error>(Error::UTF8())
        }),
{
    let mut scanner = Scanner::new(chars, words, lines);
    let mut i: usize = 0;
    while i < chunks.len()
        invariant
            scanner.wf(),
            i <= chunks@.len(),
            scanner@ == joined(chunks@.subrange(0, i as int)),
            scanner.strategy() == strategy_for(bytes, chars, words, lines, false),
            joined(chunks@).len() <= usize::MAX,
        decreases chunks@.len() - i,
    {
        proof {
            lemma_joined_prefix(chunks@, i as int);
        }
        match scanner.feed(chunks[i].as_slice()) {
            Ok(()) => {},
            Err(e) => {
                proof {
                    lemma_joined_invalid(chunks@, i as int);
                }
                return Err(e);
            },
        }
        i = i + 1;
    }
    assert(chunks@.subrange(0, i as int) =~= chunks@);
    scanner.finish()
}

/// Joining distributes over concatenation of chunk sequences.
pub proof fn lemma_joined_concat(a: Seq<Vec<u8>>, b: Seq<Vec<u8>>)
    ensures
        joined(a + b) == joined(a) + joined(b),
    decreases b.len(),
{
    if b.len() == 0 {
        assert(a + b =~= a);
        assert(joined(a) + joined(b) =~= joined(a));
    } else {
        lemma_joined_concat(a, b.drop_last());
        assert((a + b).drop_last() =~= a + b.drop_last());
        assert(joined(a + b) =~= joined(a) + joined(b));
    }
}

/// A prefix of the chunks that no continuation makes valid leaves the whole
/// stream invalid.
pub proof fn lemma_joined_invalid(chunks: Seq<Vec<u8>>, i: int)
    requires
        0 <= i < chunks.len(),
        forall|ext: Seq<u8>| !valid_utf8(#[trigger] (joined(chunks.subrange(0, i)) + chunks[i]@ + ext)),
    ensures
        !valid_utf8(joined(chunks)),
{
    let front = chunks.subrange(0, i + 1);
    let back = chunks.subrange(i + 1, chunks.len() as int);
    assert(chunks =~= front + back);
    lemma_joined_concat(front, back);
    lemma_joined_prefix(chunks, i);
    let ext = joined(back);
    assert(!valid_utf8(joined(chunks.subrange(0, i)) + chunks[i]@ + ext));
}

/// Length lookup: the counts of an input whose storage reports `size` bytes.
pub fn count_bytes(size: usize) -> (r: Counts)
    ensures
        r == size_counts(size as nat),
{
    Counts {
        bytes: Count { val: Some(size) },
        chars: Count { val: None },
        words: Count { val: None },
        lines: Count { val: None },
    }
}

/// Byte-scan for words and lines over a stream handed out as chunks.
pub fn count_bytes_words_lines(chunks: &[Vec<u8>]) -> (r: Counts)
    requires
        joined(chunks@).len() <= usize::MAX,
    ensures
        r == words_lines_counts(joined(chunks@)),
{
    let mut counter = WordLineCounter::new();
    let mut i: usize = 0;
    while i < chunks.len()
        invariant
            counter.wf(),
            i <= chunks@.len(),
            counter@ == joined(chunks@.subrange(0, i as int)),
            joined(chunks@).len() <= usize::MAX,
        decreases chunks@.len() - i,
    {
        proof {
            lemma_joined_prefix(chunks@, i as int);
        }
        counter.feed(chunks[i].as_slice());
        i = i + 1;
    }
    assert(chunks@.subrange(0, i as int) =~= chunks@);
    counter.finish()
}

/// Byte-scan for lines alone over a stream handed out as chunks.
pub fn count_bytes_lines(chunks: &[Vec<u8>]) -> (r: Counts)
    requires
        joined(chunks@).len() <= usize::MAX,
    ensures
        r == lines_counts(joined(chunks@)),
{
    let mut counter = LineCounter::new();
    let mut i: usize = 0;
    while i < chunks.len()
        invariant
            counter.wf(),
            i <= chunks@.len(),
            counter@ == joined(chunks@.subrange(0, i as int)),
            joined(chunks@).len() <= usize::MAX,
        decreases chunks@.len() - i,
    {
        proof {
            lemma_joined_prefix(chunks@, i as int);
        }
        counter.feed(chunks[i].as_slice());
        i = i + 1;
    }
    assert(chunks@.subrange(0, i as int) =~= chunks@);
    counter.finish()
}

/// Decode-count over a stream handed out as chunks: fails exactly when the
/// stream is not valid UTF-8.
pub fn count_bytes_chars_words_lines(chunks: &[Vec<u8>]) -> (r: Result<Counts, Error>)
    requires
        joined(chunks@).len() <= usize::MAX,
    ensures
        r is Ok <==> valid_utf8(joined(chunks@)),
        r matches Ok(c) ==> c == text_counts(joined(chunks@)),
        r is Err ==> r == Err::<Counts, Error>(Error::UTF8()),
{
    count_readable(chunks, true, true, true, true)
}

/// What a metric adds to a total: its value, or nothing when absent.
pub open spec fn added(c: Count) -> nat {
    match c.val {
        Some(n) => n as nat,
        None => 0,
    }
}

/// Adds a metric to a running total: a present value is added, an absent one
/// leaves the total as it is.
pub fn accumulate(total: usize, c: Count) -> (r: usize)
    requires
        total + added(c) <= usize::MAX,
    ensures
        r == total + added(c),
{
    match c.val {
        Some(n) => total + n,
        None => total,
    }
}

/// Every strategy that gives counts for a stream gives its length as the
/// bytes.
pub proof fn lemma_strategies_agree_on_bytes(strategy: Strategy, s: Seq<u8>)
    requires
        s.len() <= usize::MAX,
    ensures
        scan_result(strategy, s) matches Some(c) ==> c.bytes == (Count { val: Some(s.len() as usize) }),
        scan_result(Strategy::DecodeCount, s) matches Some(c) ==> c.bytes == size_counts(s.len()).bytes,
        lines_counts(s).bytes == size_counts(s.len()).bytes,
        words_lines_counts(s).bytes == size_counts(s.len()).bytes,
{
}

/// An ASCII byte, read as a character.
pub open spec fn ascii_char(b: u8) -> char {
    b as char
}

proof fn lemma_ascii_text(s: Seq<u8>)
    requires
        forall|i: int| 0 <= i < s.len() ==> #[trigger] s[i] < 128,
    ensures
        lines_of_text(s.map_values(|b: u8| ascii_char(b))) == lines_of_bytes(s),
        char_spaces(s.map_values(|b: u8| ascii_char(b))) == byte_spaces(s),
    decreases s.len(),
{
    let t = s.map_values(|b: u8| ascii_char(b));
    assert forall|i: int| 0 <= i < s.len() implies is_space_char(#[trigger] t[i]) == is_space_byte(s[i]) by {
        assert(s[i] < 128);
        assert(t[i] == s[i] as char);
    }
    assert(char_spaces(t) =~= byte_spaces(s));
    if s.len() > 0 {
        let s0 = s.drop_last();
        lemma_ascii_text(s0);
        assert(t.drop_last() =~= s0.map_values(|b: u8| ascii_char(b)));
        assert(t.last() == s.last() as char);
    }
}

/// On ASCII input the byte-scan and the decode-count agree on words and
/// lines, and the input is always valid UTF-8.
pub proof fn lemma_ascii_scans_agree(s: Seq<u8>)
    requires
        s.len() <= usize::MAX,
        forall|i: int| 0 <= i < s.len() ==> #[trigger] s[i] < 128,
    ensures
        valid_utf8(s),
        text_counts(s).words == words_lines_counts(s).words,
        text_counts(s).lines == words_lines_counts(s).lines,
{
    let t = s.map_values(|b: u8| ascii_char(b));
    assert(is_ascii_chars(t)) by {
        assert forall|i| 0 <= i < t.len() implies '\0' <= #[trigger] t[i] <= '\u{7f}' by {
            assert(s[i] < 128);
        }
    }
    is_ascii_chars_encode_utf8(t);
    assert(encode_utf8(t) =~= s) by {
        assert forall|i| 0 <= i < s.len() implies encode_utf8(t)[i] == s[i] by {
            assert(t[i] as u8 == encode_utf8(t)[i]);
            assert(s[i] < 128);
        }
    }
    encode_utf8_valid_utf8(t);
    encode_utf8_decode_utf8(t);
    lemma_ascii_text(s);
}

} // verus!
