//! Byte strings: literals, comparison, search, and little-endian integers.
use memchr::memmem;
use vstd::prelude::*;

verus! {

/// The bytes of an ASCII text.
pub open spec fn ascii(text: Seq<char>) -> Seq<u8> {
    Seq::new(text.len(), |i: int| text[i] as u8)
}

/// The bytes of an ASCII literal.
pub fn ascii_bytes(text: &'static str) -> (bytes: &'static [u8])
    requires
        text.is_ascii(),
    ensures
        bytes@ == ascii(text@),
{
    proof {
        vstd::string::is_ascii_spec_bytes(text);
    }
    text.as_bytes()
}

/// `needle` stands at position `at` of `hay`.
pub open spec fn occurs_at(hay: Seq<u8>, needle: Seq<u8>, at: int) -> bool {
    &&& 0 <= at
    &&& at + needle.len() <= hay.len()
    &&& hay.subrange(at, at + needle.len()) == needle
}

/// `at` is the first position at which `needle` stands in `hay`.
pub open spec fn first_occurs_at(hay: Seq<u8>, needle: Seq<u8>, at: int) -> bool {
    &&& occurs_at(hay, needle, at)
    &&& forall|i: int| i < at ==> !#[trigger] occurs_at(hay, needle, i)
}

/// The first position at which `needle` stands in `hay`.
pub open spec fn find(hay: Seq<u8>, needle: Seq<u8>) -> Option<int> {
    if exists|at: int| first_occurs_at(hay, needle, at) {
        Some(choose|at: int| first_occurs_at(hay, needle, at))
    } else {
        None
    }
}

/// `at` is the first position at which `hay` holds `byte`.
pub open spec fn first_byte_at(hay: Seq<u8>, byte: u8, at: int) -> bool {
    &&& 0 <= at < hay.len()
    &&& hay[at] == byte
    &&& forall|i: int| 0 <= i < at ==> #[trigger] hay[i] != byte
}

/// The first position at which `hay` holds `byte`.
pub open spec fn find_byte(hay: Seq<u8>, byte: u8) -> Option<int> {
    if exists|at: int| first_byte_at(hay, byte, at) {
        Some(choose|at: int| first_byte_at(hay, byte, at))
    } else {
        None
    }
}

/// The search finds the first occurrence, and nothing else.
pub proof fn lemma_find(hay: Seq<u8>, needle: Seq<u8>, at: int)
    requires
        first_occurs_at(hay, needle, at),
    ensures
        find(hay, needle) == Some(at),
{
    let found = choose|i: int| first_occurs_at(hay, needle, i);
    assert(first_occurs_at(hay, needle, found));
    assert(occurs_at(hay, needle, found) && occurs_at(hay, needle, at));
}

/// Where the needle occurs the search succeeds, at that place or before it.
pub proof fn lemma_find_succeeds(hay: Seq<u8>, needle: Seq<u8>, at: int)
    requires
        occurs_at(hay, needle, at),
    ensures
        find(hay, needle) is Some,
        0 <= find(hay, needle)->0 <= at,
        first_occurs_at(hay, needle, find(hay, needle)->0),
    decreases at,
{
    if exists|i: int| i < at && occurs_at(hay, needle, i) {
        let i = choose|i: int| i < at && occurs_at(hay, needle, i);
        lemma_find_succeeds(hay, needle, i);
    } else {
        assert(first_occurs_at(hay, needle, at));
        lemma_find(hay, needle, at);
    }
}

/// The byte search finds the first such byte, and nothing else.
pub proof fn lemma_find_byte(hay: Seq<u8>, byte: u8, at: int)
    requires
        first_byte_at(hay, byte, at),
    ensures
        find_byte(hay, byte) == Some(at),
{
    let found = choose|i: int| first_byte_at(hay, byte, i);
    assert(first_byte_at(hay, byte, found));
    assert(hay[found] == byte && hay[at] == byte);
}

/// Specifies `memchr::memmem::find`: the position of the first occurrence of
/// `needle` in `haystack`, and `None` where it does not occur. An empty needle
/// occurs at the front of every haystack.
pub assume_specification[ memmem::find ](haystack: &[u8], needle: &[u8]) -> (at: Option<usize>)
    ensures
        match at {
            Some(p) => first_occurs_at(haystack@, needle@, p as int),
            None => forall|i: int| !#[trigger] occurs_at(haystack@, needle@, i),
        },
;

/// Specifies `memchr::memchr`: the position of the first byte equal to `needle`
/// in `haystack`, and `None` where there is none.
pub assume_specification[ memchr::memchr ](needle: u8, haystack: &[u8]) -> (at: Option<usize>)
    ensures
        match at {
            Some(p) => first_byte_at(haystack@, needle, p as int),
            None => forall|i: int| 0 <= i < haystack@.len() ==> #[trigger] haystack@[i] != needle,
        },
;

/// Finds the first occurrence of an ASCII literal.
pub fn find_literal(hay: &[u8], needle: &'static str) -> (at: Option<usize>)
    requires
        needle.is_ascii(),
    ensures
        match at {
            Some(p) => find(hay@, ascii(needle@)) == Some(p as int) && first_occurs_at(
                hay@,
                ascii(needle@),
                p as int,
            ),
            None => find(hay@, ascii(needle@)) is None,
        },
{
    let at = memmem::find(hay, ascii_bytes(needle));
    proof {
        if let Some(p) = at {
            lemma_find(hay@, ascii(needle@), p as int);
        }
    }
    at
}

/// Finds the first occurrence of a byte.
pub fn find_first_byte(hay: &[u8], byte: u8) -> (at: Option<usize>)
    ensures
        match at {
            Some(p) => find_byte(hay@, byte) == Some(p as int) && p < hay@.len(),
            None => find_byte(hay@, byte) is None,
        },
{
    let at = memchr::memchr(byte, hay);
    proof {
        if let Some(p) = at {
            lemma_find_byte(hay@, byte, p as int);
        }
    }
    at
}

/// Whether two byte strings are equal.
pub fn bytes_equal(a: &[u8], b: &[u8]) -> (equal: bool)
    ensures
        equal == (a@ == b@),
{
    if a.len() != b.len() {
        return false;
    }
    for i in 0..a.len()
        invariant
            a@.len() == b@.len(),
            forall|j: int| 0 <= j < i ==> a@[j] == b@[j],
    {
        if a[i] != b[i] {
            return false;
        }
    }
    assert(a@ =~= b@);
    true
}

/// Whether an ASCII literal stands at position `at` of `hay`.
pub fn literal_at(hay: &[u8], at: usize, text: &'static str) -> (found: bool)
    requires
        at <= hay@.len(),
        text.is_ascii(),
    ensures
        found == occurs_at(hay@, ascii(text@), at as int),
{
    let bytes = ascii_bytes(text);
    if hay.len() - at < bytes.len() {
        return false;
    }
    bytes_equal(&hay[at..at + bytes.len()], bytes)
}

/// The 32-bit integer in the four bytes of `b` from `off` on, low byte first.
pub open spec fn le_u32(b: Seq<u8>, off: int) -> u32 {
    (b[off] + 256 * b[off + 1] + 65_536 * b[off + 2] + 16_777_216 * b[off + 3]) as u32
}

/// The signed 16-bit integer (two's complement) in the two bytes of `b` from
/// `off` on, low byte first.
pub open spec fn le_i16(b: Seq<u8>, off: int) -> i16 {
    let raw = b[off] + 256 * b[off + 1];
    (if raw < 32_768 {
        raw
    } else {
        raw - 65_536
    }) as i16
}

/// `longer` starts with `b`.
#[verifier::opaque]
pub open spec fn extends(longer: Seq<u8>, b: Seq<u8>) -> bool {
    b.len() <= longer.len() && longer.take(b.len() as int) == b
}

/// What extends an extension of `b` extends `b`.
pub proof fn lemma_extends(longest: Seq<u8>, longer: Seq<u8>, b: Seq<u8>)
    requires
        extends(longest, longer),
        extends(longer, b),
    ensures
        extends(longest, b),
{
    reveal(extends);
    assert(longest.take(b.len() as int) =~= longer.take(b.len() as int));
}

/// Appending extends.
pub proof fn lemma_appended(b: Seq<u8>, tail: Seq<u8>)
    ensures
        extends(b + tail, b),
        extends(b, b),
{
    reveal(extends);
    assert((b + tail).take(b.len() as int) =~= b);
    assert(b.take(b.len() as int) =~= b);
}

/// Integers read the same in an extension.
pub proof fn lemma_extends_reads(longer: Seq<u8>, b: Seq<u8>)
    requires
        extends(longer, b),
    ensures
        b.len() <= longer.len(),
        forall|i: int| 0 <= i < b.len() ==> #[trigger] longer[i] == b[i],
        forall|off: int|
            0 <= off && off + 4 <= b.len() ==> #[trigger] le_u32(longer, off) == le_u32(b, off),
        forall|off: int|
            0 <= off && off + 2 <= b.len() ==> #[trigger] le_i16(longer, off) == le_i16(b, off),
{
    reveal(extends);
    assert forall|i: int| 0 <= i < b.len() implies #[trigger] longer[i] == b[i] by {
        assert(longer.take(b.len() as int)[i] == b[i]);
    }
}

/// Reads a little-endian 32-bit integer.
pub fn read_u32(b: &[u8], off: usize) -> (value: u32)
    requires
        off + 4 <= b.len(),
    ensures
        value == le_u32(b@, off as int),
{
    b[off] as u32 + 256 * (b[off + 1] as u32) + 65_536 * (b[off + 2] as u32) + 16_777_216 * (
    b[off + 3] as u32)
}

/// Reads a little-endian signed 16-bit integer.
pub fn read_i16(b: &[u8], off: usize) -> (value: i16)
    requires
        off + 2 <= b.len(),
    ensures
        value == le_i16(b@, off as int),
{
    let raw: i32 = b[off] as i32 + 256 * (b[off + 1] as i32);
    if raw < 32_768 {
        raw as i16
    } else {
        (raw - 65_536) as i16
    }
}

/// Appends a little-endian 32-bit integer.
pub fn push_u32(out: &mut Vec<u8>, value: u32)
    ensures
        final(out)@.len() == old(out)@.len() + 4,
        extends(final(out)@, old(out)@),
        le_u32(final(out)@, old(out)@.len() as int) == value,
{
    let ghost start = out@;
    out.push((value % 256) as u8);
    out.push((value / 256 % 256) as u8);
    out.push((value / 65_536 % 256) as u8);
    out.push((value / 16_777_216) as u8);
    proof {
        reveal(extends);
        assert(out@.take(start.len() as int) =~= start);
    }
}

/// Appends a little-endian signed 16-bit integer.
pub fn push_i16(out: &mut Vec<u8>, value: i16)
    ensures
        final(out)@.len() == old(out)@.len() + 2,
        extends(final(out)@, old(out)@),
        le_i16(final(out)@, old(out)@.len() as int) == value,
{
    let ghost start = out@;
    let raw: u32 = if value < 0 {
        (value as i32 + 65_536) as u32
    } else {
        value as u32
    };
    out.push((raw % 256) as u8);
    out.push((raw / 256) as u8);
    proof {
        reveal(extends);
        assert(out@.take(start.len() as int) =~= start);
    }
}

/// The bytes of an integer are its places to the base of 256, the lowest first.
pub proof fn lemma_places(b: Seq<u8>, off: int)
    ensures
        le_u32(b, off) % 256 == b[off],
        le_u32(b, off) / 256 % 256 == b[off + 1],
        le_u32(b, off) / 65_536 % 256 == b[off + 2],
        le_u32(b, off) / 16_777_216 == b[off + 3],
        (le_i16(b, off) + 65_536) % 256 == b[off],
        (le_i16(b, off) + 65_536) / 256 % 256 == b[off + 1],
        le_i16(b, off) < 0 <==> b[off + 1] >= 128,
{
}

} // verus!
