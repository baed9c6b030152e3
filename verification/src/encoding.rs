//! Percent-encoding under a caller-supplied set of allowed characters.
//!
//! Text is modelled as `Seq<char>`. A character outside the allowed set is
//! replaced by its UTF-8 bytes, each written as `%` and two upper-case
//! hexadecimal digits.

use vstd::prelude::*;
use vstd::utf8::*;

verus! {

/// `String::push` appends one character to the string and leaves the rest as it was.
pub assume_specification[ std::string::String::push ](s: &mut std::string::String, c: char)
    ensures
        final(s)@ == old(s)@.push(c),
;

/// ALPHA: an ASCII letter.
pub open spec fn spec_is_alpha(c: char) -> bool {
    ('A' <= c && c <= 'Z') || ('a' <= c && c <= 'z')
}

/// DIGIT: an ASCII decimal digit.
pub open spec fn spec_is_digit(c: char) -> bool {
    '0' <= c && c <= '9'
}

/// HEXDIG, in either case.
pub open spec fn spec_is_hexdig(c: char) -> bool {
    spec_is_digit(c) || ('A' <= c && c <= 'F') || ('a' <= c && c <= 'f')
}

/// The unreserved characters: ALPHA, DIGIT and `-._~`.
pub open spec fn spec_is_unreserved(c: char) -> bool {
    spec_is_alpha(c) || spec_is_digit(c) || c == '-' || c == '.' || c == '_' || c == '~'
}

/// The general delimiters `:/?#[]@`.
pub open spec fn spec_is_gen_delims(c: char) -> bool {
    c == ':' || c == '/' || c == '?' || c == '#' || c == '[' || c == ']' || c == '@'
}

/// The sub-delimiters `!$&'()*+,;=`.
pub open spec fn spec_is_sub_delims(c: char) -> bool {
    c == '!' || c == '$' || c == '&' || c == '\'' || c == '(' || c == ')' || c == '*' || c == '+'
        || c == ',' || c == ';' || c == '='
}

/// The reserved characters: general delimiters and sub-delimiters.
pub open spec fn spec_is_reserved(c: char) -> bool {
    spec_is_gen_delims(c) || spec_is_sub_delims(c)
}

/// The characters that are reserved or unreserved.
pub open spec fn spec_is_unreserved_reserved(c: char) -> bool {
    spec_is_reserved(c) || spec_is_unreserved(c)
}

/// Whether `c` is an ASCII letter.
pub fn is_alpha(c: char) -> (r: bool)
    ensures
        r == spec_is_alpha(c),
{
    ('A' <= c && c <= 'Z') || ('a' <= c && c <= 'z')
}

/// Whether `c` is an ASCII decimal digit.
pub fn is_digit(c: char) -> (r: bool)
    ensures
        r == spec_is_digit(c),
{
    '0' <= c && c <= '9'
}

/// Whether `c` is a hexadecimal digit, in either case.
pub fn is_hexdig(c: char) -> (r: bool)
    ensures
        r == spec_is_hexdig(c),
{
    is_digit(c) || ('A' <= c && c <= 'F') || ('a' <= c && c <= 'f')
}

/// Whether `c` is an unreserved character.
pub fn is_unreserved(c: char) -> (r: bool)
    ensures
        r == spec_is_unreserved(c),
{
    is_alpha(c) || is_digit(c) || c == '-' || c == '.' || c == '_' || c == '~'
}

/// Whether `c` is a reserved character.
pub fn is_reserved(c: char) -> (r: bool)
    ensures
        r == spec_is_reserved(c),
{
    is_gen_delims(c) || is_sub_delims(c)
}

/// Whether `c` is a general delimiter.
pub fn is_gen_delims(c: char) -> (r: bool)
    ensures
        r == spec_is_gen_delims(c),
{
    c == ':' || c == '/' || c == '?' || c == '#' || c == '[' || c == ']' || c == '@'
}

/// Whether `c` is a sub-delimiter.
pub fn is_sub_delims(c: char) -> (r: bool)
    ensures
        r == spec_is_sub_delims(c),
{
    c == '!' || c == '$' || c == '&' || c == '\'' || c == '(' || c == ')' || c == '*' || c == '+'
        || c == ',' || c == ';' || c == '='
}

/// Whether `c` is reserved or unreserved.
pub fn is_unreserved_reserved(c: char) -> (r: bool)
    ensures
        r == spec_is_unreserved_reserved(c),
{
    is_reserved(c) || is_unreserved(c)
}

/// The upper-case hexadecimal digit for a value below 16.
pub open spec fn hex_digit(n: u8) -> char {
    if n < 10 {
        (0x30 + n) as char
    } else {
        (0x37 + n) as char
    }
}

/// One byte as `%` and two upper-case hexadecimal digits.
pub open spec fn escape_byte(b: u8) -> Seq<char> {
    seq!['%', hex_digit(b >> 4), hex_digit(b & 0xF)]
}

/// The escapes of a run of bytes, in order.
pub open spec fn escape_bytes(bs: Seq<u8>) -> Seq<char>
    decreases bs.len(),
{
    if bs.len() == 0 {
        Seq::empty()
    } else {
        escape_bytes(bs.drop_last()) + escape_byte(bs.last())
    }
}

/// The escapes of the UTF-8 bytes of one character.
pub open spec fn escape_char(c: char) -> Seq<char> {
    escape_bytes(encode_scalar(c as u32))
}

/// One character under an allowed set: itself where allowed, escaped otherwise.
pub open spec fn char_encoded(allowed: spec_fn(char) -> bool, c: char) -> Seq<char> {
    if allowed(c) {
        seq![c]
    } else {
        escape_char(c)
    }
}

/// Every character encoded on its own; a `%` is treated like any other character.
pub open spec fn each_encoded(allowed: spec_fn(char) -> bool, s: Seq<char>) -> Seq<char>
    decreases s.len(),
{
    if s.len() == 0 {
        Seq::empty()
    } else {
        char_encoded(allowed, s[0]) + each_encoded(allowed, s.skip(1))
    }
}

/// Whether `s` begins with `%` and two hexadecimal digits.
pub open spec fn starts_with_triplet(s: Seq<char>) -> bool {
    s.len() >= 3 && s[0] == '%' && spec_is_hexdig(s[1]) && spec_is_hexdig(s[2])
}

/// The text `%25`, the escape of a lone `%`.
pub open spec fn escaped_percent() -> Seq<char> {
    seq!['%', '2', '5']
}

/// The encoding that keeps well-formed escape triplets as they are: a triplet is copied
/// whatever the allowed set is, a `%` that starts no triplet becomes `%25`, and every
/// other character is encoded on its own.
pub open spec fn pct_encoded(allowed: spec_fn(char) -> bool, s: Seq<char>) -> Seq<char>
    decreases s.len(),
{
    if s.len() == 0 {
        Seq::empty()
    } else if starts_with_triplet(s) {
        s.take(3) + pct_encoded(allowed, s.skip(3))
    } else if s[0] == '%' {
        escaped_percent() + pct_encoded(allowed, s.skip(1))
    } else {
        char_encoded(allowed, s[0]) + pct_encoded(allowed, s.skip(1))
    }
}

/// The function may be called on every character.
pub open spec fn total_on_chars<F: Fn(char) -> bool>(f: F) -> bool {
    forall|c: char| #[trigger] call_requires(f, (c,))
}

/// Whatever the function answers for a character is that character's membership
/// in `allowed`.
pub open spec fn computes<F: Fn(char) -> bool>(f: F, allowed: spec_fn(char) -> bool) -> bool {
    forall|c: char, b: bool| #[trigger] call_ensures(f, (c,), b) ==> b == allowed(c)
}

/// The upper-case hexadecimal digit for a value below 16.
pub fn hex_digit_of(n: u8) -> (r: char)
    requires
        n < 16,
    ensures
        r == hex_digit(n),
{
    if n < 10 {
        (0x30u8 + n) as char
    } else {
        (0x37u8 + n) as char
    }
}

/// Appends one byte as `%` and two upper-case hexadecimal digits.
pub fn push_hex_u8(dst: &mut String, b: u8)
    ensures
        final(dst)@ == old(dst)@ + escape_byte(b),
{
    assert(b >> 4 < 16 && b & 0xF < 16) by (bit_vector);
    let hi = hex_digit_of(b >> 4);
    let lo = hex_digit_of(b & 0xF);
    dst.push('%');
    dst.push(hi);
    dst.push(lo);
    assert(dst@ =~= old(dst)@ + escape_byte(b));
}

/// One more byte adds its escape at the end.
proof fn lemma_escape_bytes_push(bs: Seq<u8>, b: u8)
    ensures
        escape_bytes(bs.push(b)) == escape_bytes(bs) + escape_byte(b),
{
    assert(bs.push(b).drop_last() =~= bs);
}

/// Appends the escapes of the UTF-8 bytes of `c`.
pub fn push_hex_char(dst: &mut String, c: char)
    ensures
        final(dst)@ == old(dst)@ + escape_char(c),
{
    let u: u32 = c as u32;
    let ghost start = dst@;
    let ghost e = Seq::<u8>::empty();
    assert(escape_bytes(e) =~= Seq::<char>::empty());
    if u < 0x80 {
        assert(u & 0x7F <= 0xFF) by (bit_vector);
        let b0: u8 = (u & 0x7F) as u8;
        push_hex_u8(dst, b0);
        proof {
            lemma_escape_bytes_push(e, b0);
            assert(encode_scalar(u) =~= e.push(b0));
            assert(dst@ =~= start + escape_char(c));
        }
    } else if u < 0x800 {
        assert((u >> 6) & 0x1F <= 0xFF && u & 0x3F <= 0xFF) by (bit_vector);
        let b0: u8 = 0xC0 | ((u >> 6) & 0x1F) as u8;
        let b1: u8 = 0x80 | (u & 0x3F) as u8;
        push_hex_u8(dst, b0);
        push_hex_u8(dst, b1);
        proof {
            lemma_escape_bytes_push(e, b0);
            lemma_escape_bytes_push(e.push(b0), b1);
            assert(encode_scalar(u) =~= e.push(b0).push(b1));
            assert(dst@ =~= start + escape_char(c));
        }
    } else if u < 0x10000 {
        assert((u >> 12) & 0x0F <= 0xFF && (u >> 6) & 0x3F <= 0xFF && u & 0x3F <= 0xFF)
            by (bit_vector);
        let b0: u8 = 0xE0 | ((u >> 12) & 0x0F) as u8;
        let b1: u8 = 0x80 | ((u >> 6) & 0x3F) as u8;
        let b2: u8 = 0x80 | (u & 0x3F) as u8;
        push_hex_u8(dst, b0);
        push_hex_u8(dst, b1);
        push_hex_u8(dst, b2);
        proof {
            lemma_escape_bytes_push(e, b0);
            lemma_escape_bytes_push(e.push(b0), b1);
            lemma_escape_bytes_push(e.push(b0).push(b1), b2);
            assert(encode_scalar(u) =~= e.push(b0).push(b1).push(b2));
            assert(dst@ =~= start + escape_char(c));
        }
    } else {
        assert((u >> 18) & 0x7 <= 0xFF && (u >> 12) & 0x3F <= 0xFF && (u >> 6) & 0x3F <= 0xFF && u
            & 0x3F <= 0xFF) by (bit_vector);
        let b0: u8 = 0xF0 | ((u >> 18) & 0x7) as u8;
        let b1: u8 = 0x80 | ((u >> 12) & 0x3F) as u8;
        let b2: u8 = 0x80 | ((u >> 6) & 0x3F) as u8;
        let b3: u8 = 0x80 | (u & 0x3F) as u8;
        push_hex_u8(dst, b0);
        push_hex_u8(dst, b1);
        push_hex_u8(dst, b2);
        push_hex_u8(dst, b3);
        proof {
            lemma_escape_bytes_push(e, b0);
            lemma_escape_bytes_push(e.push(b0), b1);
            lemma_escape_bytes_push(e.push(b0).push(b1), b2);
            lemma_escape_bytes_push(e.push(b0).push(b1).push(b2), b3);
            assert(encode_scalar(u) =~= e.push(b0).push(b1).push(b2).push(b3));
            assert(dst@ =~= start + escape_char(c));
        }
    }
}

/// Appends `c` where `is_allowed` accepts it, and its escape otherwise.
pub fn push_char<F: Fn(char) -> bool>(is_allowed: &F, dst: &mut String, c: char)
    requires
        total_on_chars(*is_allowed),
    ensures
        forall|allowed: spec_fn(char) -> bool| #[trigger]
            computes(*is_allowed, allowed) ==> final(dst)@ == old(dst)@ + char_encoded(
                allowed,
                c,
            ),
{
    if is_allowed(c) {
        dst.push(c);
        assert(dst@ =~= old(dst)@ + seq![c]);
    } else {
        push_hex_char(dst, c);
    }
}

/// Where the scan of `pct_encode` stands: what it has read and not yet written.
pub enum PctEncodeState {
    /// Nothing is held back.
    Normal,
    /// A `%` has been read.
    SawPercent,
    /// A `%` and one hexadecimal digit have been read.
    SawPercentHex(char),
}

impl PctEncodeState {
    /// A held digit is a hexadecimal digit.
    pub open spec fn wf(self) -> bool {
        match self {
            PctEncodeState::SawPercentHex(h) => spec_is_hexdig(h),
            _ => true,
        }
    }

    /// The characters read and not yet written.
    pub open spec fn pending(self) -> Seq<char> {
        match self {
            PctEncodeState::Normal => Seq::empty(),
            PctEncodeState::SawPercent => seq!['%'],
            PctEncodeState::SawPercentHex(h) => seq!['%', h],
        }
    }

    /// What is written when the held characters turn out to start no triplet.
    pub open spec fn flushed(self, allowed: spec_fn(char) -> bool) -> Seq<char> {
        match self {
            PctEncodeState::Normal => Seq::empty(),
            PctEncodeState::SawPercent => escaped_percent(),
            PctEncodeState::SawPercentHex(h) => escaped_percent() + char_encoded(allowed, h),
        }
    }

    /// Whether reading `c` in this state completes or continues a triplet.
    pub open spec fn continues(self, c: char) -> bool {
        !(self is Normal) && spec_is_hexdig(c)
    }

    /// The state after reading `c`.
    pub open spec fn next(self, c: char) -> PctEncodeState {
        match self {
            PctEncodeState::SawPercent if spec_is_hexdig(c) => PctEncodeState::SawPercentHex(c),
            PctEncodeState::SawPercentHex(_) if spec_is_hexdig(c) => PctEncodeState::Normal,
            _ => if c == '%' {
                PctEncodeState::SawPercent
            } else {
                PctEncodeState::Normal
            },
        }
    }

    /// What is written on reading `c`.
    pub open spec fn written(self, allowed: spec_fn(char) -> bool, c: char) -> Seq<char> {
        match self {
            PctEncodeState::SawPercent if spec_is_hexdig(c) => Seq::empty(),
            PctEncodeState::SawPercentHex(h) if spec_is_hexdig(c) => seq!['%', h, c],
            _ => self.flushed(allowed) + if c == '%' {
                Seq::empty()
            } else {
                char_encoded(allowed, c)
            },
        }
    }

    /// Reading `c` writes `written` and leaves the scan in `next`.
    pub fn transition<F: Fn(char) -> bool>(self, is_allowed: &F, dst: &mut String, c: char) -> (r:
        Self)
        requires
            self.wf(),
            total_on_chars(*is_allowed),
        ensures
            r == self.next(c),
            r.wf(),
            forall|allowed: spec_fn(char) -> bool| #[trigger]
                computes(*is_allowed, allowed) ==> final(dst)@ == old(dst)@ + self.written(
                    allowed,
                    c,
                ),
    {
        let hex = is_hexdig(c);
        match self {
            PctEncodeState::SawPercent if hex => {
                assert(dst@ =~= old(dst)@ + Seq::<char>::empty());
                PctEncodeState::SawPercentHex(c)
            },
            PctEncodeState::SawPercentHex(b) if hex => {
                dst.push('%');
                dst.push(b);
                dst.push(c);
                assert(dst@ =~= old(dst)@ + seq!['%', b, c]);
                PctEncodeState::Normal
            },
            _ => {
                self.push_incomplete(is_allowed, dst);
                if '%' == c {
                    assert forall|allowed: spec_fn(char) -> bool| #[trigger]
                        computes(*is_allowed, allowed) implies dst@ == old(dst)@ + self.written(
                        allowed,
                        c,
                    ) by {
                        assert(dst@ =~= old(dst)@ + (self.flushed(allowed) + Seq::<char>::empty()));
                    }
                    PctEncodeState::SawPercent
                } else {
                    push_char(is_allowed, dst, c);
                    assert forall|allowed: spec_fn(char) -> bool| #[trigger]
                        computes(*is_allowed, allowed) implies dst@ == old(dst)@ + self.written(
                        allowed,
                        c,
                    ) by {
                        assert(dst@ =~= old(dst)@ + (self.flushed(allowed) + char_encoded(
                            allowed,
                            c,
                        )));
                    }
                    PctEncodeState::Normal
                }
            },
        }
    }

    /// Writes the held characters as text that starts no triplet.
    pub fn push_incomplete<F: Fn(char) -> bool>(&self, is_allowed: &F, dst: &mut String)
        requires
            total_on_chars(*is_allowed),
        ensures
            forall|allowed: spec_fn(char) -> bool| #[trigger]
                computes(*is_allowed, allowed) ==> final(dst)@ == old(dst)@ + self.flushed(
                    allowed,
                ),
    {
        match self {
            PctEncodeState::Normal => {
                assert(dst@ =~= old(dst)@ + Seq::<char>::empty());
            },
            PctEncodeState::SawPercent => {
                push_escaped_percent(dst);
            },
            PctEncodeState::SawPercentHex(c) => {
                push_escaped_percent(dst);
                push_char(is_allowed, dst, *c);
                assert forall|allowed: spec_fn(char) -> bool| #[trigger]
                    computes(*is_allowed, allowed) implies dst@ == old(dst)@ + self.flushed(
                    allowed,
                ) by {
                    assert(dst@ =~= old(dst)@ + (escaped_percent() + char_encoded(allowed, *c)));
                }
            },
        }
    }
}

/// Appends `%25`.
fn push_escaped_percent(dst: &mut String)
    ensures
        final(dst)@ == old(dst)@ + escaped_percent(),
{
    dst.push('%');
    dst.push('2');
    dst.push('5');
    assert(dst@ =~= old(dst)@ + escaped_percent());
}

/// Reading one more character: the encoding of the held characters, `c` and any rest is
/// what the step writes, then the encoding of what is held afterwards and the rest.
pub proof fn lemma_pct_step(
    allowed: spec_fn(char) -> bool,
    state: PctEncodeState,
    c: char,
    rest: Seq<char>,
)
    requires
        state.wf(),
    ensures
        pct_encoded(allowed, state.pending() + seq![c] + rest) == state.written(allowed, c)
            + pct_encoded(allowed, state.next(c).pending() + rest),
{
    let s = state.pending() + seq![c] + rest;
    let n = state.next(c).pending() + rest;
    let tail = pct_encoded(allowed, n);
    let pc = escaped_percent();
    match state {
        PctEncodeState::Normal => {
            if c == '%' {
                assert(s =~= n);
                assert(state.written(allowed, c) + tail =~= tail);
            } else {
                assert(s.skip(1) =~= n);
                assert(!starts_with_triplet(s));
                assert(state.written(allowed, c) =~= char_encoded(allowed, c));
            }
        },
        PctEncodeState::SawPercent => {
            if spec_is_hexdig(c) {
                assert(s =~= n);
                assert(state.written(allowed, c) + tail =~= tail);
            } else {
                let t = s.skip(1);
                assert(t =~= seq![c] + rest);
                assert(!starts_with_triplet(s));
                assert(pct_encoded(allowed, s) == pc + pct_encoded(allowed, t));
                if c == '%' {
                    assert(t =~= n);
                    assert(state.written(allowed, c) =~= pc);
                } else {
                    assert(t.skip(1) =~= n);
                    assert(!starts_with_triplet(t));
                    let ec = char_encoded(allowed, c);
                    assert(pct_encoded(allowed, t) == ec + tail);
                    assert(pc + (ec + tail) =~= (pc + ec) + tail);
                }
            }
        },
        PctEncodeState::SawPercentHex(h) => {
            if spec_is_hexdig(c) {
                assert(s.skip(3) =~= n);
                assert(s.take(3) =~= seq!['%', h, c]);
                assert(starts_with_triplet(s));
            } else {
                let t = s.skip(1);
                assert(t =~= seq![h, c] + rest);
                assert(!starts_with_triplet(s));
                assert(!starts_with_triplet(t));
                let t2 = t.skip(1);
                assert(t2 =~= seq![c] + rest);
                let eh = char_encoded(allowed, h);
                assert(pct_encoded(allowed, s) == pc + pct_encoded(allowed, t));
                assert(pct_encoded(allowed, t) == eh + pct_encoded(allowed, t2));
                if c == '%' {
                    assert(t2 =~= n);
                    assert(pc + (eh + tail) =~= (pc + eh + Seq::<char>::empty()) + tail);
                } else {
                    assert(t2.skip(1) =~= n);
                    assert(!starts_with_triplet(t2));
                    let ec = char_encoded(allowed, c);
                    assert(pct_encoded(allowed, t2) == ec + tail);
                    assert(pc + (eh + (ec + tail)) =~= (pc + eh + ec) + tail);
                }
            }
        },
    }
}

/// At the end of the text the held characters start no triplet.
pub proof fn lemma_pct_end(allowed: spec_fn(char) -> bool, state: PctEncodeState)
    requires
        state.wf(),
    ensures
        pct_encoded(allowed, state.pending()) == state.flushed(allowed),
{
    let s = state.pending();
    let e = Seq::<char>::empty();
    assert(pct_encoded(allowed, e) =~= e);
    match state {
        PctEncodeState::Normal => {
            assert(s =~= e);
        },
        PctEncodeState::SawPercent => {
            assert(s.skip(1) =~= e);
            assert(!starts_with_triplet(s));
            assert(pct_encoded(allowed, s) =~= escaped_percent());
        },
        PctEncodeState::SawPercentHex(h) => {
            let t = s.skip(1);
            assert(t =~= seq![h]);
            assert(t.skip(1) =~= e);
            assert(!starts_with_triplet(s));
            assert(!starts_with_triplet(t));
            assert(pct_encoded(allowed, t) =~= char_encoded(allowed, h));
        },
    }
}

/// Appends `src` to `dst`, percent-encoded under the set that `is_allowed` computes,
/// keeping well-formed escape triplets of `src` as they are.
pub fn pct_encode<F: Fn(char) -> bool>(is_allowed: F, dst: &mut String, src: &str)
    requires
        total_on_chars(is_allowed),
    ensures
        forall|allowed: spec_fn(char) -> bool| #[trigger]
            computes(is_allowed, allowed) ==> final(dst)@ == old(dst)@ + pct_encoded(
                allowed,
                src@,
            ),
{
    let ghost start = dst@;
    let mut state = PctEncodeState::Normal;
    assert(state.pending() + src@.skip(0) =~= src@);
    for c in it: src.chars()
        invariant
            it.seq() == src@,
            state.wf(),
            total_on_chars(is_allowed),
            forall|allowed: spec_fn(char) -> bool| #[trigger]
                computes(is_allowed, allowed) ==> start + pct_encoded(allowed, src@) == dst@
                    + pct_encoded(allowed, state.pending() + src@.skip(it.index())),
    {
        let ghost i = it.index();
        let ghost before = dst@;
        let ghost prev = state;
        state = state.transition(&is_allowed, dst, c);
        assert forall|allowed: spec_fn(char) -> bool| #[trigger]
            computes(is_allowed, allowed) implies start + pct_encoded(allowed, src@) == dst@
            + pct_encoded(allowed, state.pending() + src@.skip(i + 1)) by {
            let rest = src@.skip(i + 1);
            lemma_pct_step(allowed, prev, c, rest);
            assert(prev.pending() + seq![c] + rest =~= prev.pending() + src@.skip(i));
            assert(dst@ + pct_encoded(allowed, state.pending() + rest) =~= before + (prev.written(
                allowed,
                c,
            ) + pct_encoded(allowed, state.pending() + rest)));
        }
    }
    state.push_incomplete(&is_allowed, dst);
    assert forall|allowed: spec_fn(char) -> bool| #[trigger]
        computes(is_allowed, allowed) implies dst@ == start + pct_encoded(allowed, src@) by {
        assert(state.pending() + src@.skip(src@.len() as int) =~= state.pending());
        lemma_pct_end(allowed, state);
    }
}

/// Appends `src` to `dst` with every character encoded on its own under the set that
/// `is_allowed` computes.
pub fn push_each<F: Fn(char) -> bool>(is_allowed: F, dst: &mut String, src: &str)
    requires
        total_on_chars(is_allowed),
    ensures
        forall|allowed: spec_fn(char) -> bool| #[trigger]
            computes(is_allowed, allowed) ==> final(dst)@ == old(dst)@ + each_encoded(
                allowed,
                src@,
            ),
{
    let ghost start = dst@;
    assert(src@.skip(0) =~= src@);
    for c in it: src.chars()
        invariant
            it.seq() == src@,
            total_on_chars(is_allowed),
            forall|allowed: spec_fn(char) -> bool| #[trigger]
                computes(is_allowed, allowed) ==> start + each_encoded(allowed, src@) == dst@
                    + each_encoded(allowed, src@.skip(it.index())),
    {
        let ghost i = it.index();
        let ghost before = dst@;
        push_char(&is_allowed, dst, c);
        assert forall|allowed: spec_fn(char) -> bool| #[trigger]
            computes(is_allowed, allowed) implies start + each_encoded(allowed, src@) == dst@
            + each_encoded(allowed, src@.skip(i + 1)) by {
            assert(src@.skip(i).skip(1) =~= src@.skip(i + 1));
            assert(dst@ + each_encoded(allowed, src@.skip(i + 1)) =~= before + (char_encoded(
                allowed,
                c,
            ) + each_encoded(allowed, src@.skip(i + 1))));
        }
    }
    assert forall|allowed: spec_fn(char) -> bool| #[trigger]
        computes(is_allowed, allowed) implies dst@ == start + each_encoded(allowed, src@) by {
        assert(dst@ + each_encoded(allowed, src@.skip(src@.len() as int)) =~= dst@);
    }
}

/// The unreserved characters as an allowed set.
pub open spec fn unreserved() -> spec_fn(char) -> bool {
    |c: char| spec_is_unreserved(c)
}

/// The unreserved and the reserved characters as an allowed set.
pub open spec fn unreserved_reserved() -> spec_fn(char) -> bool {
    |c: char| spec_is_unreserved_reserved(c)
}

/// Appends literal text: unreserved characters and well-formed escape triplets as they
/// are, every other character escaped.
pub fn push_literal(dst: &mut String, src: &str)
    ensures
        final(dst)@ == old(dst)@ + pct_encoded(unreserved(), src@),
{
    assert(computes(is_unreserved, unreserved()));
    pct_encode(is_unreserved, dst, src);
}

/// Appends `src` with every character that is not unreserved escaped, a `%` included.
pub fn push_allow_unreserved(dst: &mut String, src: &str)
    ensures
        final(dst)@ == old(dst)@ + each_encoded(unreserved(), src@),
{
    assert(computes(is_unreserved, unreserved()));
    push_each(is_unreserved, dst, src);
}

/// Appends `src` with every character that is neither unreserved nor reserved escaped,
/// a `%` included.
pub fn push_allow_unreserved_reserved(dst: &mut String, src: &str)
    ensures
        final(dst)@ == old(dst)@ + each_encoded(unreserved_reserved(), src@),
{
    assert(computes(is_unreserved_reserved, unreserved_reserved()));
    push_each(is_unreserved_reserved, dst, src);
}

/// Every character of `s` is in the allowed set.
pub open spec fn all_allowed(allowed: spec_fn(char) -> bool, s: Seq<char>) -> bool {
    forall|i: int| 0 <= i < s.len() ==> allowed(#[trigger] s[i])
}

/// Every `%` of `s`, read from the left, starts an escape triplet.
pub open spec fn escapes_well_formed(s: Seq<char>) -> bool
    decreases s.len(),
{
    if s.len() == 0 {
        true
    } else if starts_with_triplet(s) {
        escapes_well_formed(s.skip(3))
    } else {
        s[0] != '%' && escapes_well_formed(s.skip(1))
    }
}

/// Encoding character by character leaves text made of allowed characters as it is.
pub proof fn lemma_each_encoded_fixed_point(allowed: spec_fn(char) -> bool, s: Seq<char>)
    requires
        all_allowed(allowed, s),
    ensures
        each_encoded(allowed, s) == s,
    decreases s.len(),
{
    if s.len() > 0 {
        let t = s.skip(1);
        assert forall|i: int| 0 <= i < t.len() implies allowed(#[trigger] t[i]) by {
            assert(t[i] == s[i + 1]);
        }
        lemma_each_encoded_fixed_point(allowed, t);
        assert(allowed(s[0]));
        assert(seq![s[0]] + t =~= s);
    } else {
        assert(each_encoded(allowed, s) =~= s);
    }
}

/// On text made of allowed characters the encoding that keeps triplets never
/// shortens the text, and leaves it as it is exactly where every `%` starts a triplet:
/// any other `%` becomes `%25`.
pub proof fn lemma_pct_encoded_fixed_point(allowed: spec_fn(char) -> bool, s: Seq<char>)
    requires
        all_allowed(allowed, s),
    ensures
        pct_encoded(allowed, s).len() >= s.len(),
        pct_encoded(allowed, s) == s <==> escapes_well_formed(s),
    decreases s.len(),
{
    if s.len() == 0 {
        assert(pct_encoded(allowed, s) =~= s);
    } else {
        let n: int = if starts_with_triplet(s) {
            3
        } else {
            1
        };
        let t = s.skip(n);
        assert forall|i: int| 0 <= i < t.len() implies allowed(#[trigger] t[i]) by {
            assert(t[i] == s[i + n]);
        }
        lemma_pct_encoded_fixed_point(allowed, t);
        if starts_with_triplet(s) {
            if escapes_well_formed(s) {
                assert(s.take(3) + t =~= s);
            } else if pct_encoded(allowed, s) == s {
                assert((s.take(3) + pct_encoded(allowed, t)).skip(3) =~= pct_encoded(allowed, t));
                assert(false);
            }
        } else if s[0] == '%' {
            assert(pct_encoded(allowed, s).len() == 3 + pct_encoded(allowed, t).len());
        } else {
            assert(allowed(s[0]));
            assert(char_encoded(allowed, s[0]) == seq![s[0]]);
            if escapes_well_formed(s) {
                assert(seq![s[0]] + t =~= s);
            } else if pct_encoded(allowed, s) == s {
                assert((seq![s[0]] + pct_encoded(allowed, t)).skip(1) =~= pct_encoded(allowed, t));
                assert(false);
            }
        }
    }
}

/// Where `%` is not an allowed character, the encoding that keeps triplets leaves
/// text made of allowed characters as it is.
pub proof fn lemma_pct_encoded_fixed_point_without_percent(
    allowed: spec_fn(char) -> bool,
    s: Seq<char>,
)
    requires
        all_allowed(allowed, s),
        !allowed('%'),
    ensures
        pct_encoded(allowed, s) == s,
    decreases s.len(),
{
    if s.len() > 0 {
        let t = s.skip(1);
        assert forall|i: int| 0 <= i < t.len() implies allowed(#[trigger] t[i]) by {
            assert(t[i] == s[i + 1]);
        }
        lemma_pct_encoded_fixed_point_without_percent(allowed, t);
        assert(allowed(s[0]));
        assert(seq![s[0]] + t =~= s);
    } else {
        assert(pct_encoded(allowed, s) =~= s);
    }
}

} // verus!
