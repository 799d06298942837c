//! Content-addressed identifiers and Object kinds.
//!
//! The content id is a 64-bit FNV-1a hash of the file's bytes, mixed with
//! the length and rendered as sixteen hex digits: a deterministic function
//! of (contents, length), stable across filesystems. The Object kind is
//! derived from the file extension with the gateway's allow-list: audio,
//! video and image extensions map to their kinds, `pdf` to `Document`, and
//! anything else to `Unknown`.

use vstd::prelude::*;

use crate::strutil::str_eq;

verus! {

/// The enumerated kind of an Object.
#[derive(Clone, Copy, PartialEq, Eq, Structural, Debug)]
pub enum ObjectKind {
    Unknown,
    Document,
    Image,
    Video,
    Audio,
}

/// The stable integer value of each kind, as persisted on Objects.
pub open spec fn kind_int_spec(k: ObjectKind) -> i32 {
    match k {
        ObjectKind::Unknown => 0,
        ObjectKind::Document => 1,
        ObjectKind::Image => 2,
        ObjectKind::Video => 3,
        ObjectKind::Audio => 4,
    }
}

impl ObjectKind {
    /// The stable integer value of this kind.
    pub fn int_value(&self) -> (r: i32)
        ensures
            r == kind_int_spec(*self),
    {
        match self {
            ObjectKind::Unknown => 0,
            ObjectKind::Document => 1,
            ObjectKind::Image => 2,
            ObjectKind::Video => 3,
            ObjectKind::Audio => 4,
        }
    }
}

/// The kind derived from a lowercase extension by the allow-list.
pub open spec fn kind_of_extension(ext: Seq<char>) -> ObjectKind {
    if ext == "aac"@ || ext == "mid"@ || ext == "midi"@ || ext == "mp3"@ || ext == "m4a"@ || ext
        == "oga"@ || ext == "opus"@ || ext == "wav"@ || ext == "weba"@ {
        ObjectKind::Audio
    } else if ext == "avi"@ || ext == "mp4"@ || ext == "m4v"@ || ext == "mpeg"@ || ext == "ogv"@
        || ext == "ts"@ || ext == "webm"@ || ext == "3gp"@ || ext == "3g2"@ || ext == "mov"@ {
        ObjectKind::Video
    } else if ext == "avif"@ || ext == "bmp"@ || ext == "gif"@ || ext == "ico"@ || ext == "jpeg"@
        || ext == "jpg"@ || ext == "png"@ || ext == "svg"@ || ext == "tif"@ || ext == "tiff"@
        || ext == "webp"@ {
        ObjectKind::Image
    } else if ext == "pdf"@ {
        ObjectKind::Document
    } else {
        ObjectKind::Unknown
    }
}

/// Derives the Object kind from a lowercase extension.
pub fn kind_from_extension(ext: &str) -> (r: ObjectKind)
    ensures
        r == kind_of_extension(ext@),
{
    if str_eq(ext, "aac") || str_eq(ext, "mid") || str_eq(ext, "midi") || str_eq(ext, "mp3")
        || str_eq(ext, "m4a") || str_eq(ext, "oga") || str_eq(ext, "opus") || str_eq(ext, "wav")
        || str_eq(ext, "weba") {
        ObjectKind::Audio
    } else if str_eq(ext, "avi") || str_eq(ext, "mp4") || str_eq(ext, "m4v") || str_eq(ext, "mpeg")
        || str_eq(ext, "ogv") || str_eq(ext, "ts") || str_eq(ext, "webm") || str_eq(ext, "3gp")
        || str_eq(ext, "3g2") || str_eq(ext, "mov") {
        ObjectKind::Video
    } else if str_eq(ext, "avif") || str_eq(ext, "bmp") || str_eq(ext, "gif") || str_eq(ext, "ico")
        || str_eq(ext, "jpeg") || str_eq(ext, "jpg") || str_eq(ext, "png") || str_eq(ext, "svg")
        || str_eq(ext, "tif") || str_eq(ext, "tiff") || str_eq(ext, "webp") {
        ObjectKind::Image
    } else if str_eq(ext, "pdf") {
        ObjectKind::Document
    } else {
        ObjectKind::Unknown
    }
}

/// The FNV-1a offset basis.
pub open spec fn fnv_offset() -> int {
    0xcbf29ce484222325
}

/// The FNV-1a prime.
pub open spec fn fnv_prime() -> int {
    0x100000001b3
}

/// One FNV-1a step: xor the byte in, multiply by the prime, modulo 2^64.
pub open spec fn fnv_step(h: int, b: int) -> int {
    (((h as u64) ^ (b as u64)) as int * fnv_prime()) % 0x10000000000000000
}

/// The FNV-1a hash of a byte sequence.
pub open spec fn fnv1a(bytes: Seq<u8>) -> int
    decreases bytes.len(),
{
    if bytes.len() == 0 {
        fnv_offset()
    } else {
        fnv_step(fnv1a(bytes.drop_last()), bytes.last() as int)
    }
}

/// The hex digit character for `d`.
pub open spec fn hex_digit(d: int) -> char {
    if d == 0 {
        '0'
    } else if d == 1 {
        '1'
    } else if d == 2 {
        '2'
    } else if d == 3 {
        '3'
    } else if d == 4 {
        '4'
    } else if d == 5 {
        '5'
    } else if d == 6 {
        '6'
    } else if d == 7 {
        '7'
    } else if d == 8 {
        '8'
    } else if d == 9 {
        '9'
    } else if d == 10 {
        'a'
    } else if d == 11 {
        'b'
    } else if d == 12 {
        'c'
    } else if d == 13 {
        'd'
    } else if d == 14 {
        'e'
    } else {
        'f'
    }
}

/// The sixteen-hex-digit rendering of a 64-bit value, most significant
/// nibble first.
pub open spec fn hex16(v: int) -> Seq<char> {
    Seq::new(16, |i: int| hex_digit((v / pow16(15 - i)) % 16))
}

/// 16 to the power `e`.
pub open spec fn pow16(e: int) -> int
    decreases e,
{
    if e <= 0 {
        1
    } else {
        16 * pow16(e - 1)
    }
}

/// The content-addressed id of a file: the FNV-1a hash of its bytes,
/// mixed with the byte length, in hex.
pub open spec fn cas_of(bytes: Seq<u8>) -> Seq<char> {
    hex16(fnv_step(fnv1a(bytes), bytes.len() as int % 256))
}

/// Appends the hex digit character for `d` to `s`.
fn append_hex_digit(s: &mut String, d: u64)
    requires
        d < 16,
    ensures
        final(s)@ == old(s)@.push(hex_digit(d as int)),
{
    proof {
        reveal_strlit("0");
        reveal_strlit("1");
        reveal_strlit("2");
        reveal_strlit("3");
        reveal_strlit("4");
        reveal_strlit("5");
        reveal_strlit("6");
        reveal_strlit("7");
        reveal_strlit("8");
        reveal_strlit("9");
        reveal_strlit("a");
        reveal_strlit("b");
        reveal_strlit("c");
        reveal_strlit("d");
        reveal_strlit("e");
        reveal_strlit("f");
    }
    if d == 0 {
        s.append("0");
    } else if d == 1 {
        s.append("1");
    } else if d == 2 {
        s.append("2");
    } else if d == 3 {
        s.append("3");
    } else if d == 4 {
        s.append("4");
    } else if d == 5 {
        s.append("5");
    } else if d == 6 {
        s.append("6");
    } else if d == 7 {
        s.append("7");
    } else if d == 8 {
        s.append("8");
    } else if d == 9 {
        s.append("9");
    } else if d == 10 {
        s.append("a");
    } else if d == 11 {
        s.append("b");
    } else if d == 12 {
        s.append("c");
    } else if d == 13 {
        s.append("d");
    } else if d == 14 {
        s.append("e");
    } else {
        s.append("f");
    }
    proof {
        assert(s@ =~= old(s)@.push(hex_digit(d as int)));
    }
}

/// Computes the running FNV-1a hash of `bytes`.
fn fnv1a_exec(bytes: &Vec<u8>) -> (r: u64)
    ensures
        r as int == fnv1a(bytes@),
{
    let mut h: u64 = 0xcbf29ce484222325;
    let mut i: usize = 0;
    while i < bytes.len()
        invariant
            0 <= i <= bytes@.len(),
            h as int == fnv1a(bytes@.take(i as int)),
        decreases bytes@.len() - i,
    {
        let b = bytes[i];
        proof {
            let t1 = bytes@.take(i as int + 1);
            assert(t1.drop_last() =~= bytes@.take(i as int));
            assert(t1.last() == bytes@[i as int]);
        }
        h = (h ^ (b as u64)).wrapping_mul(0x100000001b3);
        i += 1;
    }
    proof {
        assert(bytes@.take(bytes@.len() as int) =~= bytes@);
    }
    h
}

/// Renders `v` as sixteen hex digits, most significant nibble first.
fn hex16_exec(v: u64) -> (r: String)
    ensures
        r@ == hex16(v as int),
{
    let mut s = String::new();
    let mut i: usize = 0;
    while i < 16
        invariant
            0 <= i <= 16,
            s@.len() == i,
            forall|k: int| 0 <= k < i ==> s@[k] == hex_digit(((v as int) / pow16(15 - k)) % 16),
        decreases 16 - i,
    {
        let shift: u64 = (15 - i as u64) * 4;
        let d = (v >> shift) & 0xf;
        proof {
            assert(d < 16) by (bit_vector)
                requires
                    d == (v >> shift) & 0xf,
            ;
            assert(d as int == ((v as int) / pow16(15 - i as int)) % 16) by {
                lemma_shift_is_pow16_div(v, (15 - i) as u64);
            }
        }
        append_hex_digit(&mut s, d);
        i += 1;
    }
    proof {
        assert(s@ =~= hex16(v as int));
    }
    s
}

/// Shifting right by `4 * e` bits and masking a nibble is division by
/// `16^e` modulo 16.
proof fn lemma_shift_is_pow16_div(v: u64, e: u64)
    requires
        e < 16,
    ensures
        ((v >> (e * 4)) & 0xf) as int == ((v as int) / pow16(e as int)) % 16,
{
    let p = pow16(e as int);
    assert(p > 0) by {
        lemma_pow16_pos(e as int);
    }
    assert((v >> (e * 4)) as int == (v as int) / pow16(e as int) && ((v >> (e * 4)) & 0xf) as int
        == ((v >> (e * 4)) as int) % 16) by {
        lemma_shift_div(v, e);
    }
}

proof fn lemma_pow16_pos(e: int)
    ensures
        pow16(e) > 0,
    decreases (if e > 0 {
        e
    } else {
        0
    }),
{
    if e > 0 {
        lemma_pow16_pos(e - 1);
    }
}

proof fn lemma_shift_div(v: u64, e: u64)
    requires
        e < 16,
    ensures
        (v >> (e * 4)) as int == (v as int) / pow16(e as int),
        ((v >> (e * 4)) & 0xf) as int == ((v >> (e * 4)) as int) % 16,
    decreases e,
{
    let s = v >> (e * 4);
    assert((s & 0xf) as int == (s as int) % 16) by (bit_vector);
    if e == 0 {
        assert(v >> 0 == v) by (bit_vector);
        assert(pow16(0) == 1);
    } else {
        lemma_shift_div(v, (e - 1) as u64);
        let prev = v >> (((e - 1) as u64) * 4);
        assert(v >> (e * 4) == prev >> 4) by (bit_vector)
            requires
                e < 16 && e >= 1 && prev == v >> (((e - 1) as u64) * 4),
        ;
        assert((prev >> 4) as int == (prev as int) / 16) by (bit_vector);
        assert(pow16(e as int) == 16 * pow16(e as int - 1));
        assert((v as int) / pow16(e as int) == ((v as int) / pow16(e as int - 1)) / 16) by {
            lemma_pow16_pos(e as int - 1);
            vstd::arithmetic::div_mod::lemma_div_denominator(
                v as int,
                pow16(e as int - 1),
                16,
            );
        }
    }
}

/// The content-addressed id of a file's bytes.
pub fn generate_cas_id(contents: &Vec<u8>) -> (r: String)
    ensures
        r@ == cas_of(contents@),
{
    let h = fnv1a_exec(contents);
    let mixed = (h ^ ((contents.len() as u64) % 256)).wrapping_mul(0x100000001b3);
    hex16_exec(mixed)
}

} // verus!
