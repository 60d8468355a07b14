use vstd::prelude::*;

verus! {

// ---------------------------------------------------------------------------
// Text model: a source text is a sequence of chars; a position in it is a
// char index, and the byte offset of a char index is the UTF-8 length of the
// chars before it.
// ---------------------------------------------------------------------------

/// Number of bytes in the UTF-8 encoding of `c`.
pub open spec fn char_width(c: char) -> nat {
    if (c as u32) < 0x80 {
        1
    } else if (c as u32) < 0x800 {
        2
    } else if (c as u32) < 0x10000 {
        3
    } else {
        4
    }
}

/// Number of bytes in the UTF-8 encoding of `s`.
pub open spec fn utf8_len(s: Seq<char>) -> nat
    decreases s.len(),
{
    if s.len() == 0 {
        0
    } else {
        utf8_len(s.drop_last()) + char_width(s.last())
    }
}

/// Byte offset of char index `i` in `s`.
pub open spec fn byte_offset(s: Seq<char>, i: int) -> nat {
    utf8_len(s.take(i))
}

pub proof fn lemma_utf8_len_concat(a: Seq<char>, b: Seq<char>)
    ensures
        utf8_len(a + b) == utf8_len(a) + utf8_len(b),
    decreases b.len(),
{
    if b.len() == 0 {
        assert(a + b =~= a);
    } else {
        assert((a + b).drop_last() =~= a + b.drop_last());
        lemma_utf8_len_concat(a, b.drop_last());
    }
}

pub proof fn lemma_byte_offset_step(s: Seq<char>, i: int)
    requires
        0 <= i < s.len(),
    ensures
        byte_offset(s, i + 1) == byte_offset(s, i) + char_width(s[i]),
{
    assert(s.take(i + 1).drop_last() =~= s.take(i));
}

pub proof fn lemma_byte_offset_mono(s: Seq<char>, i: int, j: int)
    requires
        0 <= i <= j <= s.len(),
    ensures
        byte_offset(s, i) <= byte_offset(s, j),
        i < j ==> byte_offset(s, i) < byte_offset(s, j),
    decreases j - i,
{
    if i < j {
        lemma_byte_offset_step(s, j - 1);
        lemma_byte_offset_mono(s, i, j - 1);
    }
}

pub proof fn lemma_byte_offset_range(s: Seq<char>, i: int, j: int)
    requires
        0 <= i <= j <= s.len(),
    ensures
        byte_offset(s, j) == byte_offset(s, i) + utf8_len(s.subrange(i, j)),
{
    assert(s.take(j) =~= s.take(i) + s.subrange(i, j));
    lemma_utf8_len_concat(s.take(i), s.subrange(i, j));
}

pub proof fn lemma_byte_offset_full(s: Seq<char>)
    ensures
        byte_offset(s, s.len() as int) == utf8_len(s),
{
    assert(s.take(s.len() as int) =~= s);
}

proof fn lemma_encode_len(s: Seq<char>)
    ensures
        vstd::utf8::encode_utf8(s).len() == utf8_len(s),
    decreases s.len(),
{
    if s.len() > 0 {
        lemma_encode_len(s.drop_first());
        assert(s =~= seq![s[0]] + s.drop_first());
        lemma_utf8_len_concat(seq![s[0]], s.drop_first());
        assert(seq![s[0]].drop_last() =~= Seq::<char>::empty());
        let c = s[0] as u32;
        vstd::utf8::char_is_scalar(s[0]);
        assert(vstd::utf8::encode_scalar(c).len() == char_width(s[0]));
        assert(utf8_len(seq![s[0]]) == utf8_len(Seq::<char>::empty()) + char_width(s[0]));
        assert(vstd::utf8::encode_utf8(s) == vstd::utf8::encode_scalar(c) + vstd::utf8::encode_utf8(
            s.drop_first(),
        ));
    }
}

// ---------------------------------------------------------------------------
// Characters
// ---------------------------------------------------------------------------

/// The Unicode `White_Space` property.
pub open spec fn spec_is_whitespace(c: char) -> bool {
    ||| ('\u{9}' <= c && c <= '\u{d}')
    ||| c == ' '
    ||| c == '\u{85}'
    ||| c == '\u{a0}'
    ||| c == '\u{1680}'
    ||| ('\u{2000}' <= c && c <= '\u{200a}')
    ||| c == '\u{2028}'
    ||| c == '\u{2029}'
    ||| c == '\u{202f}'
    ||| c == '\u{205f}'
    ||| c == '\u{3000}'
}

/// The whitespace test as a predicate.
pub open spec fn whitespace() -> spec_fn(char) -> bool {
    |c: char| spec_is_whitespace(c)
}

/// Whether `c` has the Unicode `White_Space` property.
pub fn is_whitespace(c: char) -> (r: bool)
    ensures
        r == spec_is_whitespace(c),
{
    ('\u{9}' <= c && c <= '\u{d}') || c == ' ' || c == '\u{85}' || c == '\u{a0}' || c == '\u{1680}'
        || ('\u{2000}' <= c && c <= '\u{200a}') || c == '\u{2028}' || c == '\u{2029}' || c
        == '\u{202f}' || c == '\u{205f}' || c == '\u{3000}'
}

/// Number of bytes in the UTF-8 encoding of `c`.
pub fn char_len_utf8(c: char) -> (n: usize)
    ensures
        n == char_width(c),
{
    let u = c as u32;
    if u < 0x80 {
        1
    } else if u < 0x800 {
        2
    } else if u < 0x10000 {
        3
    } else {
        4
    }
}

/// The chars of `s`, in order.
pub fn chars_of(s: &str) -> (v: Vec<char>)
    ensures
        v@ == s@,
{
    let mut v: Vec<char> = Vec::new();
    for c in it: s.chars()
        invariant
            v@ == it.seq().take(it.index()),
    {
        v.push(c);
    }
    v
}

/// Appends `c` to `s`.
#[verifier::external_body]
pub(crate) fn push_char(s: &mut String, c: char)
    ensures
        final(s)@ == old(s)@.push(c),
{
    s.push(c)
}

/// The `String` whose chars are `chars[from..to]`.
pub fn string_from_chars(chars: &Vec<char>, from: usize, to: usize) -> (s: String)
    requires
        from <= to <= chars.len(),
    ensures
        s@ == chars@.subrange(from as int, to as int),
{
    let mut s = String::new();
    let mut i = from;
    while i < to
        invariant
            from <= i <= to <= chars.len(),
            s@ == chars@.subrange(from as int, i as int),
        decreases to - i,
    {
        push_char(&mut s, chars[i]);
        assert(chars@.subrange(from as int, i + 1) =~= chars@.subrange(from as int, i as int).push(
            chars@[i as int],
        ));
        i = i + 1;
    }
    s
}

/// Whether two strings hold the same chars.
pub fn str_eq(a: &str, b: &str) -> (r: bool)
    ensures
        r == (a@ == b@),
{
    let x = a.as_bytes();
    let y = b.as_bytes();
    proof {
        vstd::utf8::encode_utf8_decode_utf8(a@);
        vstd::utf8::encode_utf8_decode_utf8(b@);
    }
    if x.len() != y.len() {
        return false;
    }
    let mut i: usize = 0;
    while i < x.len()
        invariant
            x@.len() == y@.len(),
            x@ == vstd::utf8::encode_utf8(a@),
            y@ == vstd::utf8::encode_utf8(b@),
            i <= x@.len(),
            forall|k: int| 0 <= k < i ==> x@[k] == y@[k],
        decreases x@.len() - i,
    {
        if x[i] != y[i] {
            assert(a@ != b@) by {
                if a@ == b@ {
                    assert(x@ == y@);
                }
            }
            return false;
        }
        i = i + 1;
    }
    assert(x@ =~= y@);
    true
}

// ---------------------------------------------------------------------------
// Messages
// ---------------------------------------------------------------------------

/// What `format!("{:?}", s)` writes for a string with the chars `s`.
pub uninterp spec fn debug_text(s: Seq<char>) -> Seq<char>;

/// What `format!("{:?}", c)` writes for the char `c`.
pub uninterp spec fn debug_char_text(c: char) -> Seq<char>;

/// `format!("{:?}", s)`: the quoted, escaped form of a string.
///
/// The result is named by `debug_text`: it depends on the chars of `s` alone.
/// How `Debug` escapes a string is not stated.
#[verifier::external_body]
pub fn debug_str(s: &str) -> (r: String)
    ensures
        r@ == debug_text(s@),
{
    format!("{:?}", s)
}

/// `format!("{:?}", c)`: the quoted, escaped form of a char.
///
/// The result is named by `debug_char_text`: it depends on `c` alone.
/// How `Debug` escapes a char is not stated.
#[verifier::external_body]
pub fn debug_char(c: char) -> (r: String)
    ensures
        r@ == debug_char_text(c),
{
    format!("{:?}", c)
}

pub open spec fn msg_end_of_input() -> Seq<char> {
    "Unexpected end of input"@
}

pub open spec fn msg_expected(t: Seq<char>) -> Seq<char> {
    "Expected "@ + debug_text(t)
}

pub open spec fn msg_expected_got(e: char, c: char) -> Seq<char> {
    "Expected "@ + debug_char_text(e) + ", got "@ + debug_char_text(c)
}

/// `prefix` followed by `rest`, as a new `String`.
pub fn concat(prefix: &str, rest: &str) -> (r: String)
    ensures
        r@ == prefix@ + rest@,
{
    let mut r = String::from_str(prefix);
    r.append(rest);
    r
}

// ---------------------------------------------------------------------------
// Errors and the spec of a parsing step
// ---------------------------------------------------------------------------

#[derive(Debug)]
pub struct ParserError {
    pub message: String,
    pub pos: usize,
}

/// A parse failure in the model: its message, and the char index at which
/// it was raised.
pub struct SErr {
    pub message: Seq<char>,
    pub at: nat,
}

/// The outcome of a parsing step in the model: a value and the char index
/// after it, or a failure.
pub type SRes<T> = Result<(T, nat), SErr>;

pub open spec fn serr(message: Seq<char>, at: nat) -> SErr {
    SErr { message, at }
}

impl ParserError {
    /// `self` is the failure `e` raised in the text `s`.
    pub open spec fn models(self, s: Seq<char>, e: SErr) -> bool {
        &&& self.message@ == e.message
        &&& self.pos == byte_offset(s, e.at as int)
    }
}

pub type ParserResult<T> = Result<T, ParserError>;

/// `starts_with(s, i, t)`: the chars of `s` from index `i` on begin with `t`.
pub open spec fn starts_with_at(s: Seq<char>, i: int, t: Seq<char>) -> bool {
    &&& 0 <= i
    &&& i + t.len() <= s.len()
    &&& s.subrange(i, i + t.len()) == t
}

/// The first index at or after `i` whose char does not satisfy `p`, or the
/// length of `s`.
pub open spec fn take_while_end(s: Seq<char>, i: nat, p: spec_fn(char) -> bool) -> nat
    decreases s.len() - i,
{
    if i >= s.len() || !p(s[i as int]) {
        i
    } else {
        take_while_end(s, i + 1, p)
    }
}

pub proof fn lemma_take_while_end(s: Seq<char>, i: nat, p: spec_fn(char) -> bool)
    requires
        i <= s.len(),
    ensures
        i <= take_while_end(s, i, p) <= s.len(),
        forall|k: int| i <= k < take_while_end(s, i, p) ==> p(#[trigger] s[k]),
        take_while_end(s, i, p) < s.len() ==> !p(s[take_while_end(s, i, p) as int]),
    decreases s.len() - i,
{
    if i < s.len() && p(s[i as int]) {
        lemma_take_while_end(s, i + 1, p);
    }
}

pub proof fn lemma_take_while_end_ge(s: Seq<char>, i: nat, p: spec_fn(char) -> bool)
    ensures
        i <= take_while_end(s, i, p),
    decreases s.len() - i,
{
    if i < s.len() && p(s[i as int]) {
        lemma_take_while_end_ge(s, i + 1, p);
    }
}

/// What `consume_while` reports for an exec predicate `f` that computes `p`
/// is the end of the run of chars that satisfy `p`.
pub proof fn lemma_consumed<F: Fn(char) -> bool>(
    f: F,
    p: spec_fn(char) -> bool,
    s: Seq<char>,
    i: nat,
    j: nat,
)
    requires
        forall|c: char, r: bool| call_ensures(f, (c,), r) ==> r == p(c),
        i <= j <= s.len(),
        forall|k: int| i <= k < j ==> call_ensures(f, (#[trigger] s[k],), true),
        j < s.len() ==> call_ensures(f, (s[j as int],), false),
    ensures
        take_while_end(s, i, p) == j,
{
    assert forall|k: int| i <= k < j implies p(#[trigger] s[k]) by {
        assert(call_ensures(f, (s[k],), true));
    }
    lemma_take_while_unique(s, i, j, p);
}

pub proof fn lemma_take_while_unique(s: Seq<char>, i: nat, j: nat, p: spec_fn(char) -> bool)
    requires
        i <= j <= s.len(),
        forall|k: int| i <= k < j ==> p(#[trigger] s[k]),
        j < s.len() ==> !p(s[j as int]),
    ensures
        take_while_end(s, i, p) == j,
    decreases j - i,
{
    if i < j {
        lemma_take_while_unique(s, i + 1, j, p);
    }
}

// ---------------------------------------------------------------------------
// The parser
// ---------------------------------------------------------------------------

/// A cursor over a source text. `pos` is the byte offset of the cursor.
pub struct Parser {
    pub pos: usize,
    pub input: String,
    chars: Vec<char>,
    idx: usize,
}

impl Parser {
    /// The char index of the cursor.
    pub closed spec fn cursor(&self) -> nat {
        self.idx as nat
    }

    /// The parser's fields agree: `pos` is the byte offset of the cursor in
    /// `input`, and the text's byte length fits in a `usize`.
    pub closed spec fn wf(&self) -> bool {
        &&& self.chars@ == self.input@
        &&& self.idx <= self.chars@.len()
        &&& self.pos == byte_offset(self.input@, self.idx as int)
        &&& utf8_len(self.input@) <= usize::MAX
    }

    /// The text of the parser.
    pub closed spec fn text(&self) -> Seq<char> {
        self.input@
    }

    /// The byte offset of the cursor.
    pub closed spec fn byte_pos(&self) -> nat {
        self.pos as nat
    }

    /// What `wf` gives a caller.
    pub proof fn lemma_wf(&self)
        requires
            self.wf(),
        ensures
            self.cursor() <= self.text().len(),
            self.byte_pos() == byte_offset(self.text(), self.cursor() as int),
            utf8_len(self.text()) <= usize::MAX,
    {
    }

    /// The failure `e` raised in this parser's text, as an exec error.
    pub open spec fn raises(&self, r: ParserError, e: SErr) -> bool {
        r.models(self.text(), e)
    }

    /// `final` is `self` with the cursor moved to `i`.
    pub open spec fn moved_to(&self, final_: &Parser, i: nat) -> bool {
        &&& final_.wf()
        &&& final_.text() == self.text()
        &&& final_.cursor() == i
    }

    pub fn new(input: String) -> (p: Parser)
        ensures
            p.wf(),
            p.text() == input@,
            p.cursor() == 0,
            p.byte_pos() == 0,
    {
        let chars = chars_of(input.as_str());
        let bytes = input.as_str().as_bytes();
        let _n = bytes.len();
        proof {
            lemma_encode_len(input@);
            assert(input@.take(0) =~= Seq::<char>::empty());
        }
        Parser { pos: 0, input, chars, idx: 0 }
    }

    pub fn next(&self) -> (r: ParserResult<char>)
        requires
            self.wf(),
        ensures
            match r {
                Ok(c) => self.cursor() < self.text().len() && c == self.text()[self.cursor() as int],
                Err(e) => self.cursor() >= self.text().len() && self.raises(
                    e,
                    serr(msg_end_of_input(), self.cursor()),
                ),
            },
    {
        if self.idx < self.chars.len() {
            Ok(self.chars[self.idx])
        } else {
            Err(self.err(String::from_str("Unexpected end of input")))
        }
    }

    pub fn starts_with(&self, s: &str) -> (r: bool)
        requires
            self.wf(),
        ensures
            r == starts_with_at(self.text(), self.cursor() as int, s@),
    {
        let t = chars_of(s);
        self.starts_with_chars(&t)
    }

    fn starts_with_chars(&self, t: &Vec<char>) -> (r: bool)
        requires
            self.wf(),
        ensures
            r == starts_with_at(self.text(), self.cursor() as int, t@),
    {
        if t.len() > self.chars.len() - self.idx {
            return false;
        }
        let mut k: usize = 0;
        while k < t.len()
            invariant
                self.wf(),
                k <= t.len(),
                self.idx + t.len() <= self.chars.len(),
                forall|m: int| 0 <= m < k ==> self.chars@[self.idx + m] == t@[m],
            decreases t.len() - k,
        {
            if self.chars[self.idx + k] != t[k] {
                assert(self.chars@.subrange(self.idx as int, self.idx + t.len())[k as int]
                    != t@[k as int]);
                return false;
            }
            k = k + 1;
        }
        assert(self.chars@.subrange(self.idx as int, self.idx + t.len()) =~= t@);
        true
    }

    /// Moves the cursor forward over the `n` chars `t`, which stand there.
    fn advance_over(&mut self, t: &Vec<char>)
        requires
            old(self).wf(),
            starts_with_at(old(self).text(), old(self).cursor() as int, t@),
        ensures
            old(self).moved_to(final(self), old(self).cursor() + t@.len()),
    {
        let ghost s = self.input@;
        let mut k: usize = 0;
        let _n = self.chars.len();
        while k < t.len()
            invariant
                self.wf(),
                _n == self.chars@.len(),
                self.input@ == s,
                k <= t.len(),
                self.idx == old(self).idx + k,
                self.input == old(self).input,
                starts_with_at(s, old(self).idx as int, t@),
            decreases t.len() - k,
        {
            let w = char_len_utf8(self.chars[self.idx]);
            proof {
                lemma_byte_offset_step(s, self.idx as int);
                lemma_byte_offset_mono(s, self.idx + 1, s.len() as int);
                lemma_byte_offset_full(s);
            }
            self.pos = self.pos + w;
            self.idx = self.idx + 1;
            k = k + 1;
        }
    }

    pub fn expect(&mut self, s: &str) -> (r: ParserResult<()>)
        requires
            old(self).wf(),
        ensures
            match r {
                Ok(_) => starts_with_at(old(self).text(), old(self).cursor() as int, s@)
                    && old(self).moved_to(final(self), old(self).cursor() + s@.len()),
                Err(e) => !starts_with_at(old(self).text(), old(self).cursor() as int, s@)
                    && old(self).moved_to(final(self), old(self).cursor()) && old(self).raises(
                    e,
                    serr(msg_expected(s@), old(self).cursor()),
                ),
            },
    {
        let t = chars_of(s);
        if !self.starts_with_chars(&t) {
            let m = concat("Expected ", debug_str(s).as_str());
            return Err(self.err(m));
        }
        self.advance_over(&t);
        Ok(())
    }

    pub fn expect_char(&mut self, expected: char) -> (r: ParserResult<()>)
        requires
            old(self).wf(),
        ensures
            ({
                let s = old(self).text();
                let i = old(self).cursor();
                if i >= s.len() {
                    old(self).moved_to(final(self), i) && (r matches Err(e) && old(self).raises(
                        e,
                        serr(msg_end_of_input(), i),
                    ))
                } else if s[i as int] != expected {
                    old(self).moved_to(final(self), i + 1) && (r matches Err(e) && old(
                        self,
                    ).raises(e, serr(msg_expected_got(expected, s[i as int]), i + 1)))
                } else {
                    old(self).moved_to(final(self), i + 1) && r is Ok
                }
            }),
    {
        let c = self.consume()?;
        if c != expected {
            let m = concat("Expected ", debug_char(expected).as_str());
            let m = concat(m.as_str(), ", got ");
            let m = concat(m.as_str(), debug_char(c).as_str());
            return Err(self.err(m));
        }
        Ok(())
    }

    pub fn eof(&self) -> (r: bool)
        requires
            self.wf(),
        ensures
            r == (self.cursor() >= self.text().len()),
            r == (self.byte_pos() >= utf8_len(self.text())),
    {
        proof {
            lemma_byte_offset_full(self.input@);
            if self.idx < self.chars.len() {
                lemma_byte_offset_mono(self.input@, self.idx as int, self.input@.len() as int);
            }
        }
        self.idx >= self.chars.len()
    }

    pub fn consume(&mut self) -> (r: ParserResult<char>)
        requires
            old(self).wf(),
        ensures
            ({
                let s = old(self).text();
                let i = old(self).cursor();
                if i < s.len() {
                    r == Ok::<char, ParserError>(s[i as int]) && old(self).moved_to(
                        final(self),
                        i + 1,
                    ) && final(self).byte_pos() == old(self).byte_pos() + char_width(s[i as int])
                } else {
                    old(self).moved_to(final(self), i) && (r matches Err(e) && old(self).raises(
                        e,
                        serr(msg_end_of_input(), i),
                    ))
                }
            }),
    {
        let c = self.next()?;
        let ghost s = self.input@;
        let _n = self.chars.len();
        let w = char_len_utf8(c);
        proof {
            lemma_byte_offset_step(s, self.idx as int);
            lemma_byte_offset_mono(s, self.idx + 1, s.len() as int);
            lemma_byte_offset_full(s);
        }
        self.pos = self.pos + w;
        self.idx = self.idx + 1;
        Ok(c)
    }

    pub fn consume_while(&mut self, predicate: impl Fn(char) -> bool) -> (r: ParserResult<String>)
        requires
            old(self).wf(),
            forall|c: char| call_requires(predicate, (c,)),
        ensures
            ({
                let s = old(self).text();
                let i = old(self).cursor();
                let j = final(self).cursor();
                &&& old(self).moved_to(final(self), j)
                &&& i <= j <= s.len()
                &&& forall|k: int| i <= k < j ==> call_ensures(predicate, (s[k],), true)
                &&& j < s.len() ==> call_ensures(predicate, (s[j as int],), false)
                &&& r matches Ok(v) && v@ == s.subrange(i as int, j as int)
            }),
    {
        let ghost s = self.input@;
        let ghost i = self.idx;
        let mut result = String::new();
        let n = self.chars.len();
        while self.idx < n
            invariant
                n == s.len(),
                self.wf(),
                self.input@ == s,
                i <= self.idx <= s.len(),
                i == old(self).cursor(),
                forall|c: char| call_requires(predicate, (c,)),
                forall|k: int| i <= k < self.idx ==> call_ensures(predicate, (s[k],), true),
                result@ == s.subrange(i as int, self.idx as int),
            ensures
                self.wf(),
                self.input@ == s,
                i <= self.idx <= s.len(),
                forall|k: int| i <= k < self.idx ==> call_ensures(predicate, (s[k],), true),
                result@ == s.subrange(i as int, self.idx as int),
                self.idx < s.len() ==> call_ensures(predicate, (s[self.idx as int],), false),
            decreases s.len() - self.idx,
        {
            let c = self.chars[self.idx];
            if !predicate(c) {
                break;
            }
            let ghost before = self.idx;
            let d = self.consume();
            assert(s.subrange(i as int, before + 1) =~= s.subrange(i as int, before as int).push(
                c,
            ));
            match d {
                Ok(c2) => push_char(&mut result, c2),
                Err(_) => {},
            }
        }
        Ok(result)
    }

    pub fn consume_whitespace(&mut self) -> (r: ParserResult<()>)
        requires
            old(self).wf(),
        ensures
            r is Ok,
            old(self).moved_to(
                final(self),
                take_while_end(old(self).text(), old(self).cursor(), whitespace()),
            ),
    {
        let ghost s = self.input@;
        let ghost i = self.idx as nat;
        let _ = self.consume_while(is_whitespace);
        proof {
            lemma_consumed(is_whitespace, whitespace(), s, i, self.idx as nat);
        }
        Ok(())
    }

    /// The number of bytes from the cursor to the end of the text.
    pub fn bytes_left(&self) -> (n: usize)
        requires
            self.wf(),
        ensures
            n == utf8_len(self.text()) - self.byte_pos(),
            n == utf8_len(self.text().subrange(self.cursor() as int, self.text().len() as int)),
    {
        let total = self.input.as_str().len();
        proof {
            lemma_encode_len(self.input@);
            lemma_byte_offset_full(self.input@);
            lemma_byte_offset_range(self.input@, self.idx as int, self.input@.len() as int);
        }
        total - self.pos
    }

    /// The char `k` places after the cursor, if the text has one there.
    pub fn peek(&self, k: usize) -> (r: Option<char>)
        requires
            self.wf(),
        ensures
            match r {
                Some(c) => self.cursor() + k < self.text().len() && c == self.text()[self.cursor()
                    + k],
                None => self.cursor() + k >= self.text().len(),
            },
    {
        if k < self.chars.len() - self.idx {
            Some(self.chars[self.idx + k])
        } else {
            None
        }
    }

    pub fn err(&self, message: String) -> (e: ParserError)
        requires
            self.wf(),
        ensures
            e.message == message,
            e.pos == self.byte_pos(),
            self.raises(e, serr(message@, self.cursor())),
    {
        ParserError { message, pos: self.pos }
    }
}

} // verus!
