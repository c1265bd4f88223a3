//! Which values travel inline in a head word, and how their bits are tagged.
//!
//! A head word is 64 bits wide. Bit 0 tells an inline value (1) from anything
//! else (0); bits 1 to 32 hold the bytes of an inline value, the lowest one first.
use vstd::prelude::*;

verus! {

/// Tag bit: a head word encodes an inline value when bit 0 is set.
pub const INLINE_TAG: u64 = 1;

/// A value that a [`Cell`](crate::cell::Cell) can hold.
///
/// Types of at most four bytes are inline: their bytes, zero-padded to a 32-bit
/// word, are the value. All other types live in heap blocks; [`InBlock`] makes a
/// payload of any of them.
pub trait Payload: Sized {
    /// Whether values of this type travel inline.
    spec fn inline() -> bool;

    /// The bytes of an inline value, as one word.
    spec fn word(self) -> u32;

    /// The number of words that the bytes of an inline value can form: 256 for one
    /// byte, and so on.
    spec fn span() -> u64;

    /// A word fits in the bytes of the type, and inline values with the same word
    /// are the same value.
    proof fn word_injective(a: Self, b: Self)
        ensures
            Self::inline() ==> a.word() < Self::span(),
            Self::inline() && a.word() == b.word() ==> a == b,
    ;

    /// The word of an inline value; `None` for a type that is not inline.
    fn to_word(&self) -> (w: Option<u32>)
        ensures
            w == (if Self::inline() {
                Some(self.word())
            } else {
                None
            }),
    ;

    /// The inline value whose bytes are the low bytes of this word, whatever stands
    /// above them; `None` where there is none.
    fn from_word(w: u32) -> (v: Option<Self>)
        ensures
            match v {
                Some(x) => Self::inline() && x.word() == w as u64 % Self::span(),
                None => !Self::inline() || forall|x: Self| x.word() != w as u64 % Self::span(),
            },
    ;
}

impl Payload for () {
    open spec fn inline() -> bool {
        true
    }

    open spec fn word(self) -> u32 {
        0
    }

    open spec fn span() -> u64 {
        1
    }

    proof fn word_injective(a: Self, b: Self) {}

    fn to_word(&self) -> (w: Option<u32>) {
        Some(0)
    }

    fn from_word(w: u32) -> (v: Option<Self>) {
        Some(())
    }
}

impl Payload for bool {
    open spec fn inline() -> bool {
        true
    }

    open spec fn word(self) -> u32 {
        if self {
            1
        } else {
            0
        }
    }

    open spec fn span() -> u64 {
        0x100
    }

    proof fn word_injective(a: Self, b: Self) {}

    fn to_word(&self) -> (w: Option<u32>) {
        Some(if *self {
            1
        } else {
            0
        })
    }

    fn from_word(w: u32) -> (v: Option<Self>) {
        let byte: u32 = w % 0x100;
        if byte == 0 {
            Some(false)
        } else if byte == 1 {
            Some(true)
        } else {
            None
        }
    }
}

impl Payload for u8 {
    open spec fn inline() -> bool {
        true
    }

    open spec fn word(self) -> u32 {
        self as u32
    }

    open spec fn span() -> u64 {
        0x100
    }

    proof fn word_injective(a: Self, b: Self) {}

    fn to_word(&self) -> (w: Option<u32>) {
        Some(*self as u32)
    }

    fn from_word(w: u32) -> (v: Option<Self>) {
        assert((w as u8) as u32 == w % 0x100) by (bit_vector);
        Some(w as u8)
    }
}

impl Payload for u16 {
    open spec fn inline() -> bool {
        true
    }

    open spec fn word(self) -> u32 {
        self as u32
    }

    open spec fn span() -> u64 {
        0x1_0000
    }

    proof fn word_injective(a: Self, b: Self) {}

    fn to_word(&self) -> (w: Option<u32>) {
        Some(*self as u32)
    }

    fn from_word(w: u32) -> (v: Option<Self>) {
        assert((w as u16) as u32 == w % 0x1_0000) by (bit_vector);
        Some(w as u16)
    }
}

impl Payload for u32 {
    open spec fn inline() -> bool {
        true
    }

    open spec fn word(self) -> u32 {
        self
    }

    open spec fn span() -> u64 {
        0x1_0000_0000
    }

    proof fn word_injective(a: Self, b: Self) {}

    fn to_word(&self) -> (w: Option<u32>) {
        Some(*self)
    }

    fn from_word(w: u32) -> (v: Option<Self>) {
        Some(w)
    }
}

impl Payload for i8 {
    open spec fn inline() -> bool {
        true
    }

    open spec fn word(self) -> u32 {
        self as u8 as u32
    }

    open spec fn span() -> u64 {
        0x100
    }

    proof fn word_injective(a: Self, b: Self) {
        assert(a as u8 == b as u8 ==> a == b) by (bit_vector);
    }

    fn to_word(&self) -> (w: Option<u32>) {
        Some(*self as u8 as u32)
    }

    fn from_word(w: u32) -> (v: Option<Self>) {
        assert((w as i8) as u8 as u32 == w % 0x100) by (bit_vector);
        Some(w as i8)
    }
}

impl Payload for i16 {
    open spec fn inline() -> bool {
        true
    }

    open spec fn word(self) -> u32 {
        self as u16 as u32
    }

    open spec fn span() -> u64 {
        0x1_0000
    }

    proof fn word_injective(a: Self, b: Self) {
        assert(a as u16 == b as u16 ==> a == b) by (bit_vector);
    }

    fn to_word(&self) -> (w: Option<u32>) {
        Some(*self as u16 as u32)
    }

    fn from_word(w: u32) -> (v: Option<Self>) {
        assert((w as i16) as u16 as u32 == w % 0x1_0000) by (bit_vector);
        Some(w as i16)
    }
}

impl Payload for i32 {
    open spec fn inline() -> bool {
        true
    }

    open spec fn word(self) -> u32 {
        self as u32
    }

    open spec fn span() -> u64 {
        0x1_0000_0000
    }

    proof fn word_injective(a: Self, b: Self) {
        assert(a as u32 == b as u32 ==> a == b) by (bit_vector);
    }

    fn to_word(&self) -> (w: Option<u32>) {
        Some(*self as u32)
    }

    fn from_word(w: u32) -> (v: Option<Self>) {
        assert((w as i32) as u32 == w) by (bit_vector);
        Some(w as i32)
    }
}

/// `char::from_u32`: the character whose scalar value is `w`, and `None` exactly
/// when `w` is no scalar value (above `0x10ffff`, or a surrogate).
#[verifier::external_body]
fn char_from_u32(w: u32) -> (c: Option<char>)
    ensures
        match c {
            Some(x) => x as int == w,
            None => 0xd800 <= w <= 0xdfff || 0x10ffff < w,
        },
{
    char::from_u32(w)
}

proof fn lemma_char_word(c: char)
    ensures
        c.word() == c as int,
        c as int <= 0xd7ff || 0xe000 <= c as int <= 0x10ffff,
{
}

impl Payload for char {
    open spec fn inline() -> bool {
        true
    }

    open spec fn word(self) -> u32 {
        self as u32
    }

    open spec fn span() -> u64 {
        0x1_0000_0000
    }

    proof fn word_injective(a: Self, b: Self) {
        lemma_char_word(a);
        lemma_char_word(b);
    }

    fn to_word(&self) -> (w: Option<u32>) {
        Some(*self as u32)
    }

    fn from_word(w: u32) -> (v: Option<Self>) {
        match char_from_u32(w) {
            Some(c) => {
                proof {
                    lemma_char_word(c);
                }
                Some(c)
            },
            None => {
                assert forall|x: char| x.word() != w by {
                    lemma_char_word(x);
                }
                None
            },
        }
    }
}

impl Payload for u64 {
    open spec fn inline() -> bool {
        false
    }

    open spec fn word(self) -> u32 {
        0
    }

    open spec fn span() -> u64 {
        0x1_0000_0000
    }

    proof fn word_injective(a: Self, b: Self) {}

    fn to_word(&self) -> (w: Option<u32>) {
        None
    }

    fn from_word(w: u32) -> (v: Option<Self>) {
        None
    }
}

impl Payload for i64 {
    open spec fn inline() -> bool {
        false
    }

    open spec fn word(self) -> u32 {
        0
    }

    open spec fn span() -> u64 {
        0x1_0000_0000
    }

    proof fn word_injective(a: Self, b: Self) {}

    fn to_word(&self) -> (w: Option<u32>) {
        None
    }

    fn from_word(w: u32) -> (v: Option<Self>) {
        None
    }
}

impl Payload for u128 {
    open spec fn inline() -> bool {
        false
    }

    open spec fn word(self) -> u32 {
        0
    }

    open spec fn span() -> u64 {
        0x1_0000_0000
    }

    proof fn word_injective(a: Self, b: Self) {}

    fn to_word(&self) -> (w: Option<u32>) {
        None
    }

    fn from_word(w: u32) -> (v: Option<Self>) {
        None
    }
}

impl Payload for i128 {
    open spec fn inline() -> bool {
        false
    }

    open spec fn word(self) -> u32 {
        0
    }

    open spec fn span() -> u64 {
        0x1_0000_0000
    }

    proof fn word_injective(a: Self, b: Self) {}

    fn to_word(&self) -> (w: Option<u32>) {
        None
    }

    fn from_word(w: u32) -> (v: Option<Self>) {
        None
    }
}

impl Payload for usize {
    open spec fn inline() -> bool {
        usize::BITS == 32
    }

    open spec fn word(self) -> u32 {
        self as u32
    }

    open spec fn span() -> u64 {
        0x1_0000_0000
    }

    proof fn word_injective(a: Self, b: Self) {}

    fn to_word(&self) -> (w: Option<u32>) {
        if usize::BITS == 32 {
            Some(*self as u32)
        } else {
            None
        }
    }

    fn from_word(w: u32) -> (v: Option<Self>) {
        if usize::BITS == 32 {
            Some(w as usize)
        } else {
            None
        }
    }
}

impl Payload for isize {
    open spec fn inline() -> bool {
        usize::BITS == 32
    }

    open spec fn word(self) -> u32 {
        self as usize as u32
    }

    open spec fn span() -> u64 {
        0x1_0000_0000
    }

    proof fn word_injective(a: Self, b: Self) {
        assert(a as usize == b as usize ==> a == b) by (bit_vector);
    }

    fn to_word(&self) -> (w: Option<u32>) {
        if usize::BITS == 32 {
            Some(*self as usize as u32)
        } else {
            None
        }
    }

    fn from_word(w: u32) -> (v: Option<Self>) {
        if usize::BITS == 32 {
            assert(usize::BITS == 32 ==> (w as isize) as usize as u32 == w) by (bit_vector);
            Some(w as isize)
        } else {
            None
        }
    }
}

/// Byte `i` of a sequence, and 0 past its end.
pub open spec fn byte_at(s: Seq<u8>, i: int) -> int {
    if i < s.len() {
        s[i] as int
    } else {
        0
    }
}

/// The little-endian word of the first four bytes, zero-padded.
pub open spec fn bytes_word(s: Seq<u8>) -> int {
    byte_at(s, 0) + 0x100 * byte_at(s, 1) + 0x1_0000 * byte_at(s, 2) + 0x100_0000 * byte_at(s, 3)
}

/// The number of words of `n` bytes, at most four.
pub open spec fn bytes_span(n: int) -> u64 {
    if n == 0 {
        1
    } else if n == 1 {
        0x100
    } else if n == 2 {
        0x1_0000
    } else if n == 3 {
        0x100_0000
    } else {
        0x1_0000_0000
    }
}

proof fn lemma_bytes_word_fits(s: Seq<u8>, n: int)
    requires
        s.len() == n,
    ensures
        0 <= bytes_word(s) < 0x1_0000_0000,
        n <= 4 ==> bytes_word(s) < bytes_span(n),
{
}

proof fn lemma_bytes_word_injective(a: Seq<u8>, b: Seq<u8>)
    requires
        a.len() == b.len() <= 4,
        bytes_word(a) == bytes_word(b),
    ensures
        a == b,
{
    let a_high = byte_at(a, 1) + 0x100 * byte_at(a, 2) + 0x1_0000 * byte_at(a, 3);
    let b_high = byte_at(b, 1) + 0x100 * byte_at(b, 2) + 0x1_0000 * byte_at(b, 3);
    assert(byte_at(a, 0) == byte_at(b, 0) && a_high == b_high);
    let a_top = byte_at(a, 2) + 0x100 * byte_at(a, 3);
    let b_top = byte_at(b, 2) + 0x100 * byte_at(b, 3);
    assert(byte_at(a, 1) == byte_at(b, 1) && a_top == b_top);
    assert(byte_at(a, 2) == byte_at(b, 2) && byte_at(a, 3) == byte_at(b, 3));
    assert forall|i: int| 0 <= i < a.len() implies a[i] == b[i] by {
        assert(byte_at(a, i) == byte_at(b, i));
    }
    assert(a =~= b);
}

impl<const N: usize> Payload for [u8; N] {
    open spec fn inline() -> bool {
        N <= 4
    }

    open spec fn word(self) -> u32 {
        bytes_word(self@) as u32
    }

    open spec fn span() -> u64 {
        bytes_span(N as int)
    }

    proof fn word_injective(a: Self, b: Self) {
        lemma_bytes_word_fits(a@, N as int);
        lemma_bytes_word_fits(b@, N as int);
        if N <= 4 && a.word() == b.word() {
            lemma_bytes_word_injective(a@, b@);
            assert(a =~= b);
        }
    }

    fn to_word(&self) -> (w: Option<u32>) {
        if N > 4 {
            return None;
        }
        let b0: u32 = if N > 0 { self[0] as u32 } else { 0 };
        let b1: u32 = if N > 1 { self[1] as u32 } else { 0 };
        let b2: u32 = if N > 2 { self[2] as u32 } else { 0 };
        let b3: u32 = if N > 3 { self[3] as u32 } else { 0 };
        Some(b0 + 0x100 * b1 + 0x1_0000 * b2 + 0x100_0000 * b3)
    }

    fn from_word(w: u32) -> (v: Option<Self>) {
        if N > 4 {
            return None;
        }
        let mut bytes = [0u8; N];
        let mut rest: u32 = w;
        let mut i: usize = 0;
        while i < N
            invariant
                i <= N <= 4,
                forall|k: int| i <= k < N ==> bytes@[k] == 0,
                w == bytes_word(bytes@) + bytes_span(i as int) * rest,
                bytes_word(bytes@) < bytes_span(i as int),
            decreases N - i,
        {
            let ghost before = bytes_word(bytes@);
            let ghost from = bytes_span(i as int) as int;
            let ghost to = bytes_span(i + 1) as int;
            let ghost whole = rest as int;
            let ghost low = whole % 0x100;
            bytes[i] = (rest % 0x100) as u8;
            rest = rest / 0x100;
            proof {
                assert(to == 0x100 * from);
                assert(bytes_word(bytes@) == before + from * low) by {
                    assert(byte_at(bytes@, i as int) == low);
                }
                assert(from * whole == from * low + to * rest) by (nonlinear_arith)
                    requires
                        to == 0x100 * from,
                        whole == 0x100 * rest + low,
                ;
                assert(from * low <= from * 0xff) by (nonlinear_arith)
                    requires
                        0 <= low <= 0xff,
                        0 < from,
                ;
            }
            i = i + 1;
        }
        proof {
            let span = bytes_span(N as int) as int;
            assert(span * rest == rest * span) by (nonlinear_arith);
            vstd::arithmetic::div_mod::lemma_fundamental_div_mod_converse(
                w as int,
                bytes_span(N as int) as int,
                rest as int,
                bytes_word(bytes@),
            );
        }
        Some(bytes)
    }
}

impl<const N: usize> Payload for [u64; N] {
    open spec fn inline() -> bool {
        N == 0
    }

    open spec fn word(self) -> u32 {
        0
    }

    open spec fn span() -> u64 {
        1
    }

    proof fn word_injective(a: Self, b: Self) {
        if N == 0 {
            assert(a =~= b);
        }
    }

    fn to_word(&self) -> (w: Option<u32>) {
        if N == 0 {
            Some(0)
        } else {
            None
        }
    }

    fn from_word(w: u32) -> (v: Option<Self>) {
        if N == 0 {
            Some([0u64; N])
        } else {
            None
        }
    }
}

impl<E> Payload for Vec<E> {
    open spec fn inline() -> bool {
        false
    }

    open spec fn word(self) -> u32 {
        0
    }

    open spec fn span() -> u64 {
        0x1_0000_0000
    }

    proof fn word_injective(a: Self, b: Self) {}

    fn to_word(&self) -> (w: Option<u32>) {
        None
    }

    fn from_word(w: u32) -> (v: Option<Self>) {
        None
    }
}

impl Payload for String {
    open spec fn inline() -> bool {
        false
    }

    open spec fn word(self) -> u32 {
        0
    }

    open spec fn span() -> u64 {
        0x1_0000_0000
    }

    proof fn word_injective(a: Self, b: Self) {}

    fn to_word(&self) -> (w: Option<u32>) {
        None
    }

    fn from_word(w: u32) -> (v: Option<Self>) {
        None
    }
}

/// A value of any type that lives in heap blocks. It makes a payload of a type of more
/// than four bytes that has no impl of its own.
#[derive(Debug, PartialEq)]
pub struct InBlock<T> {
    pub value: T,
}

impl<T: Clone> Clone for InBlock<T> {
    fn clone(&self) -> (copy: Self)
        ensures
            vstd::pervasive::strictly_cloned(self.value, copy.value),
    {
        InBlock { value: self.value.clone() }
    }
}

impl<T> Payload for InBlock<T> {
    open spec fn inline() -> bool {
        false
    }

    open spec fn word(self) -> u32 {
        0
    }

    open spec fn span() -> u64 {
        0x1_0000_0000
    }

    proof fn word_injective(a: Self, b: Self) {}

    fn to_word(&self) -> (w: Option<u32>) {
        None
    }

    fn from_word(w: u32) -> (v: Option<Self>) {
        None
    }
}

/// The tagged head word of an inline value: its word above a set tag bit.
pub open spec fn tagged(word: u32) -> u64 {
    (2 * word + 1) as u64
}

/// Put a word above a set tag bit.
pub fn tag(word: u32) -> (bits: u64)
    ensures
        bits == tagged(word),
{
    assert(((word as u64) << 1) | 1 == 2 * word + 1) by (bit_vector);
    ((word as u64) << 1) | INLINE_TAG
}

/// Encode an inline value into a tagged head word; `None` for a type that is not
/// inline.
pub fn encode_inline<T: Payload>(value: &T) -> (bits: Option<u64>)
    ensures
        bits == (if T::inline() {
            Some(tagged(value.word()))
        } else {
            None
        }),
{
    match value.to_word() {
        Some(word) => Some(tag(word)),
        None => None,
    }
}

/// Whether `value` is what the tagged head word `bits` holds: the inline value
/// whose bytes are the low ones of bits 1 to 32, or `None` where there is none.
pub open spec fn held_by<T: Payload>(bits: u64, value: Option<T>) -> bool {
    let word = ((bits / 2) % 0x1_0000_0000) % T::span();
    match value {
        Some(x) => T::inline() && x.word() == word,
        None => !T::inline() || forall|x: T| x.word() != word,
    }
}

/// Decode a tagged head word: the low bytes of bits 1 to 32 are the value, as many as
/// the type has. `None` where they are no value of the type.
pub fn decode_inline<T: Payload>(bits: u64) -> (value: Option<T>)
    requires
        bits % 2 == 1,
    ensures
        held_by(bits, value),
{
    assert((bits >> 1) as u32 == (bits / 2) % 0x1_0000_0000) by (bit_vector);
    T::from_word((bits >> 1) as u32)
}

/// Decoding gives back what was encoded, for every inline value.
pub proof fn law_inline_round_trip<T: Payload>(value: T, decoded: Option<T>)
    requires
        T::inline(),
        held_by(tagged(value.word()), decoded),
    ensures
        decoded == Some(value),
{
    T::word_injective(value, value);
    assert((tagged(value.word()) / 2) % 0x1_0000_0000 == value.word());
    vstd::arithmetic::div_mod::lemma_small_mod(value.word() as nat, T::span() as nat);
    if let Some(x) = decoded {
        T::word_injective(value, x);
    }
}

/// Every encoded word carries the tag in bit 0 and the word above it, and fits in 33
/// bits.
pub proof fn law_encoded_words_are_tagged(word: u32)
    ensures
        tagged(word) & INLINE_TAG == INLINE_TAG,
        tagged(word) < 0x2_0000_0000,
        tagged(word) % 2 == 1,
        tagged(word) / 2 == word as u64,
{
    let bits = tagged(word);
    assert(bits % 2 == 1 ==> bits & 1 == 1) by (bit_vector);
}

/// The inline rule is the four-byte rule, for every primitive type.
pub proof fn law_inline_iff_at_most_four_bytes()
    ensures
        <()>::inline() == (vstd::layout::size_of::<()>() <= 4),
        bool::inline() == (vstd::layout::size_of::<bool>() <= 4),
        char::inline() == (vstd::layout::size_of::<char>() <= 4),
        u8::inline() == (vstd::layout::size_of::<u8>() <= 4),
        u16::inline() == (vstd::layout::size_of::<u16>() <= 4),
        u32::inline() == (vstd::layout::size_of::<u32>() <= 4),
        u64::inline() == (vstd::layout::size_of::<u64>() <= 4),
        u128::inline() == (vstd::layout::size_of::<u128>() <= 4),
        usize::inline() == (vstd::layout::size_of::<usize>() <= 4),
        i8::inline() == (vstd::layout::size_of::<i8>() <= 4),
        i16::inline() == (vstd::layout::size_of::<i16>() <= 4),
        i32::inline() == (vstd::layout::size_of::<i32>() <= 4),
        i64::inline() == (vstd::layout::size_of::<i64>() <= 4),
        i128::inline() == (vstd::layout::size_of::<i128>() <= 4),
        isize::inline() == (vstd::layout::size_of::<isize>() <= 4),
{
    broadcast use {vstd::layout::layout_of_primitives, vstd::layout::layout_of_unit_tuple};
}

/// Decoding looks at the low bytes of bits 1 to 32 and at nothing else: it gives the one
/// inline value whose word they are, and `None` exactly where there is none.
pub proof fn law_low_bytes_decide<T: Payload>(bits: u64, decoded: Option<T>, value: T)
    requires
        held_by(bits, decoded),
    ensures
        !T::inline() ==> decoded is None,
        T::inline() && value.word() == ((bits / 2) % 0x1_0000_0000) % T::span() ==> decoded
            == Some(value),
        T::inline() && (forall|x: T| x.word() != ((bits / 2) % 0x1_0000_0000) % T::span())
            ==> decoded is None,
{
    if let Some(x) = decoded {
        T::word_injective(x, value);
    }
}

/// The word of an inline number is the number itself, in two's complement for a signed
/// one; `false` and `true` are 0 and 1, and a character is its scalar value.
pub proof fn law_words_are_the_numbers(
    b: bool,
    c: char,
    u1: u8,
    u2: u16,
    u4: u32,
    i1: i8,
    i2: i16,
    i4: i32,
    us: usize,
    is: isize,
)
    ensures
        ().word() == 0,
        usize::BITS == 32 ==> us.word() == us,
        usize::BITS == 32 ==> is.word() == (if is < 0 {
            is + 0x1_0000_0000
        } else {
            is as int
        }),
        b.word() == (if b {
            1int
        } else {
            0
        }),
        c.word() == c as int,
        u1.word() == u1,
        u2.word() == u2,
        u4.word() == u4,
        i1.word() == (if i1 < 0 {
            i1 + 0x100
        } else {
            i1 as int
        }),
        i2.word() == (if i2 < 0 {
            i2 + 0x1_0000
        } else {
            i2 as int
        }),
        i4.word() == (if i4 < 0 {
            i4 + 0x1_0000_0000
        } else {
            i4 as int
        }),
{
    lemma_char_word(c);
    assert(usize::BITS == 32 ==> is as usize as u32 == (if is < 0 {
        is + 0x1_0000_0000
    } else {
        is as int
    })) by (bit_vector);
    assert(i1 as u8 == (if i1 < 0 {
        i1 + 0x100
    } else {
        i1 as int
    })) by (bit_vector);
    assert(i2 as u16 == (if i2 < 0 {
        i2 + 0x1_0000
    } else {
        i2 as int
    })) by (bit_vector);
    assert(i4 as u32 == (if i4 < 0 {
        i4 + 0x1_0000_0000
    } else {
        i4 as int
    })) by (bit_vector);
}

/// The span of an inline number is the number of its values' bit patterns: 256 for each
/// byte that it has.
pub proof fn law_spans_are_the_sizes()
    ensures
        <()>::span() == 1,
        bool::span() == 0x100,
        u8::span() == u8::MAX + 1,
        i8::span() == u8::MAX + 1,
        u16::span() == u16::MAX + 1,
        i16::span() == u16::MAX + 1,
        u32::span() == u32::MAX + 1,
        i32::span() == u32::MAX + 1,
        char::span() == u32::MAX + 1,
        usize::span() == u32::MAX + 1,
        isize::span() == u32::MAX + 1,
        <[u64; 0]>::span() == 1,
        <[u64; 0]>::inline(),
{
}

/// Byte `i` of an inline array is byte `i` of its word, and the bytes past its end are
/// zero; an array is inline exactly up to four bytes.
pub proof fn law_array_words_hold_the_bytes<const N: usize>(a: [u8; N])
    ensures
        <[u8; N]>::inline() <==> N <= 4,
        N == 0 ==> <[u8; N]>::span() == 1,
        N == 1 ==> <[u8; N]>::span() == 0x100,
        N == 2 ==> <[u8; N]>::span() == 0x1_0000,
        N == 3 ==> <[u8; N]>::span() == 0x100_0000,
        N == 4 ==> <[u8; N]>::span() == 0x1_0000_0000,
        N > 0 ==> a.word() % 0x100 == a@[0],
        N > 1 ==> (a.word() / 0x100) % 0x100 == a@[1],
        N > 2 ==> (a.word() / 0x1_0000) % 0x100 == a@[2],
        N > 3 ==> a.word() / 0x100_0000 == a@[3],
        N == 0 ==> a.word() == 0,
        N == 1 ==> a.word() < 0x100,
        N == 2 ==> a.word() < 0x1_0000,
        N == 3 ==> a.word() < 0x100_0000,
{
    let s = a@;
    let w = bytes_word(s);
    let b0 = byte_at(s, 0);
    let b1 = byte_at(s, 1);
    let b2 = byte_at(s, 2);
    let b3 = byte_at(s, 3);
    assert(w == b0 + 0x100 * b1 + 0x1_0000 * b2 + 0x100_0000 * b3);
    assert(0 <= b0 < 0x100 && 0 <= b1 < 0x100 && 0 <= b2 < 0x100 && 0 <= b3 < 0x100);
    assert(w % 0x100 == b0);
    assert(w / 0x100 == b1 + 0x100 * b2 + 0x1_0000 * b3);
    assert(w / 0x1_0000 == b2 + 0x100 * b3);
    assert(w / 0x100_0000 == b3);
}

/// Types that own heap memory, and larger numbers, are never inline.
pub proof fn law_large_types_are_not_inline<E, const N: usize>()
    ensures
        !<Vec<E>>::inline(),
        !String::inline(),
        !<InBlock<E>>::inline(),
        N > 0 ==> !<[u64; N]>::inline(),
{
}

} // verus!
