//! Slang shader compilation support: cache file names derived from a SHA-256
//! of the source, entry point and stage, and the reading of the compiler's
//! version output.

use vstd::prelude::*;
use crate::text::{char_text, chars_of, first_line, first_line_spec, joined, views};
use sha2::{Digest, Sha256};
use vstd::string::StringSliceAdditionalSpecFns;

verus! {

/// Why compiling a shader failed.
#[derive(Debug, Clone, PartialEq)]
pub enum SlangError {
    NotFound,
    Compile(String),
    Io(String),
}

impl SlangError {
    /// How the error reads for a person.
    pub fn message(&self) -> (m: String)
        ensures
            m@ == match *self {
                SlangError::NotFound => "slangc not found (set SLANGC_PATH or PATH)"@,
                SlangError::Compile(e) => "slangc failed: "@ + e@,
                SlangError::Io(e) => "io error: "@ + e@,
            },
    {
        broadcast use vstd::string::group_string_axioms;
        match self {
            SlangError::NotFound => "slangc not found (set SLANGC_PATH or PATH)".to_string(),
            SlangError::Compile(e) => joined("slangc failed: ", e.as_str()),
            SlangError::Io(e) => joined("io error: ", e.as_str()),
        }
    }
}

/// The SHA-256 digest of `data`.
pub uninterp spec fn sha256_spec(data: Seq<u8>) -> Seq<u8>;

/// Calls `sha2::Sha256`: one update with `data`, then `finalize`. The digest
/// is 32 bytes long (`OutputSize = U32`).
#[verifier::external_body]
fn sha256_digest(data: &[u8]) -> (d: Vec<u8>)
    ensures
        d@ == sha256_spec(data@),
        d@.len() == 32,
{
    let mut hasher = Sha256::new();
    hasher.update(data);
    hasher.finalize().to_vec()
}

/// The lowercase hexadecimal digit for `d < 16`.
pub open spec fn hex_digit(d: int) -> char {
    if d < 10 {
        crate::text::digit_spec(d as nat)
    } else if d == 10 {
        'a'
    } else if d == 11 {
        'b'
    } else if d == 12 {
        'c'
    } else if d == 13 {
        'd'
    } else if d == 14 {
        'e'
    } else {
        'f'
    }
}

/// Bytes as lowercase hexadecimal, two digits per byte.
pub open spec fn hex_spec(bytes: Seq<u8>) -> Seq<char>
    decreases bytes.len(),
{
    if bytes.len() == 0 {
        Seq::empty()
    } else {
        hex_spec(bytes.drop_last()) + seq![
            hex_digit(bytes.last() as int / 16),
            hex_digit(bytes.last() as int % 16),
        ]
    }
}

fn hex_char(d: u8) -> (c: char)
    requires
        d < 16,
    ensures
        c == hex_digit(d as int),
{
    if d < 10 {
        if d == 0 { '0' }
        else if d == 1 { '1' }
        else if d == 2 { '2' }
        else if d == 3 { '3' }
        else if d == 4 { '4' }
        else if d == 5 { '5' }
        else if d == 6 { '6' }
        else if d == 7 { '7' }
        else if d == 8 { '8' }
        else { '9' }
    } else if d == 10 {
        'a'
    } else if d == 11 {
        'b'
    } else if d == 12 {
        'c'
    } else if d == 13 {
        'd'
    } else if d == 14 {
        'e'
    } else {
        'f'
    }
}

/// Bytes in lowercase hexadecimal.
pub fn hex_text(bytes: &Vec<u8>) -> (t: String)
    ensures
        t@ == hex_spec(bytes@),
{
    let mut t = String::new();
    let mut i: usize = 0;
    while i < bytes.len()
        invariant
            i <= bytes@.len(),
            t@ == hex_spec(bytes@.subrange(0, i as int)),
        decreases bytes.len() - i,
    {
        let b = bytes[i];
        t.append(char_text(hex_char(b / 16)).as_str());
        t.append(char_text(hex_char(b % 16)).as_str());
        i = i + 1;
        proof {
            let pre = bytes@.subrange(0, i as int);
            assert(pre.drop_last() =~= bytes@.subrange(0, i - 1));
            assert(t@ =~= hex_spec(pre));
        }
    }
    assert(bytes@.subrange(0, bytes@.len() as int) =~= bytes@);
    t
}

/// `n` as eight bytes, least significant first.
pub open spec fn le64(n: u64) -> Seq<u8> {
    seq![
        (n & 0xff) as u8,
        ((n >> 8u64) & 0xff) as u8,
        ((n >> 16u64) & 0xff) as u8,
        ((n >> 24u64) & 0xff) as u8,
        ((n >> 32u64) & 0xff) as u8,
        ((n >> 40u64) & 0xff) as u8,
        ((n >> 48u64) & 0xff) as u8,
        ((n >> 56u64) & 0xff) as u8,
    ]
}

/// A field of bytes preceded by its length, so that fields one after
/// another can be told apart.
pub open spec fn field(b: Seq<u8>) -> Seq<u8> {
    le64(b.len() as u64) + b
}

/// The bytes hashed to name a compiled shader: the UTF-8 of the source, the
/// entry point and the stage, each as a field preceded by its length.
pub open spec fn cache_input(source: &str, entry: &str, stage: &str) -> Seq<u8> {
    field(source.spec_bytes()) + field(entry.spec_bytes()) + field(stage.spec_bytes())
}

proof fn lemma_le64_injective(a: u64, b: u64)
    requires
        le64(a) == le64(b),
    ensures
        a == b,
{
    assert(le64(a)[0] == le64(b)[0]);
    assert(le64(a)[1] == le64(b)[1]);
    assert(le64(a)[2] == le64(b)[2]);
    assert(le64(a)[3] == le64(b)[3]);
    assert(le64(a)[4] == le64(b)[4]);
    assert(le64(a)[5] == le64(b)[5]);
    assert(le64(a)[6] == le64(b)[6]);
    assert(le64(a)[7] == le64(b)[7]);
    assert(a == b) by (bit_vector)
        requires
            (a & 0xff) as u8 == (b & 0xff) as u8,
            ((a >> 8u64) & 0xff) as u8 == ((b >> 8u64) & 0xff) as u8,
            ((a >> 16u64) & 0xff) as u8 == ((b >> 16u64) & 0xff) as u8,
            ((a >> 24u64) & 0xff) as u8 == ((b >> 24u64) & 0xff) as u8,
            ((a >> 32u64) & 0xff) as u8 == ((b >> 32u64) & 0xff) as u8,
            ((a >> 40u64) & 0xff) as u8 == ((b >> 40u64) & 0xff) as u8,
            ((a >> 48u64) & 0xff) as u8 == ((b >> 48u64) & 0xff) as u8,
            ((a >> 56u64) & 0xff) as u8 == ((b >> 56u64) & 0xff) as u8,
    ;
}

/// Fields read back: when two runs of a field and what follows are equal,
/// so are the fields and what follows.
proof fn lemma_field_split(a: Seq<u8>, ra: Seq<u8>, b: Seq<u8>, rb: Seq<u8>)
    requires
        field(a) + ra == field(b) + rb,
        a.len() <= u64::MAX,
        b.len() <= u64::MAX,
    ensures
        a == b,
        ra == rb,
{
    let x = field(a) + ra;
    let y = field(b) + rb;
    assert(x.subrange(0, 8) =~= le64(a.len() as u64));
    assert(y.subrange(0, 8) =~= le64(b.len() as u64));
    lemma_le64_injective(a.len() as u64, b.len() as u64);
    assert(a.len() == b.len());
    assert(x.subrange(8, 8 + a.len() as int) =~= a);
    assert(y.subrange(8, 8 + b.len() as int) =~= b);
    assert(x.subrange(8 + a.len() as int, x.len() as int) =~= ra);
    assert(y.subrange(8 + b.len() as int, y.len() as int) =~= rb);
}

/// Only the same source, entry point and stage give the same bytes to hash.
pub proof fn lemma_cache_input_injective(s1: &str, e1: &str, t1: &str, s2: &str, e2: &str, t2: &str)
    requires
        cache_input(s1, e1, t1) == cache_input(s2, e2, t2),
        s1.spec_bytes().len() <= u64::MAX,
        e1.spec_bytes().len() <= u64::MAX,
        t1.spec_bytes().len() <= u64::MAX,
        s2.spec_bytes().len() <= u64::MAX,
        e2.spec_bytes().len() <= u64::MAX,
        t2.spec_bytes().len() <= u64::MAX,
    ensures
        s1@ == s2@,
        e1@ == e2@,
        t1@ == t2@,
{
    let (a1, b1, c1) = (s1.spec_bytes(), e1.spec_bytes(), t1.spec_bytes());
    let (a2, b2, c2) = (s2.spec_bytes(), e2.spec_bytes(), t2.spec_bytes());
    assert(field(a1) + (field(b1) + field(c1)) =~= cache_input(s1, e1, t1));
    assert(field(a2) + (field(b2) + field(c2)) =~= cache_input(s2, e2, t2));
    lemma_field_split(a1, field(b1) + field(c1), a2, field(b2) + field(c2));
    assert(field(b1) + field(c1) =~= field(b1) + (field(c1) + Seq::<u8>::empty()));
    assert(field(b2) + field(c2) =~= field(b2) + (field(c2) + Seq::<u8>::empty()));
    lemma_field_split(b1, field(c1) + Seq::<u8>::empty(), b2, field(c2) + Seq::<u8>::empty());
    assert(field(c1) =~= field(c1) + Seq::<u8>::empty());
    assert(field(c2) =~= field(c2) + Seq::<u8>::empty());
    lemma_field_split(c1, Seq::<u8>::empty(), c2, Seq::<u8>::empty());
    vstd::utf8::encode_utf8_decode_utf8(s1@);
    vstd::utf8::encode_utf8_decode_utf8(s2@);
    vstd::utf8::encode_utf8_decode_utf8(e1@);
    vstd::utf8::encode_utf8_decode_utf8(e2@);
    vstd::utf8::encode_utf8_decode_utf8(t1@);
    vstd::utf8::encode_utf8_decode_utf8(t2@);
}

fn push_le64(out: &mut Vec<u8>, n: u64)
    ensures
        final(out)@ == old(out)@ + le64(n),
{
    out.push((n & 0xff) as u8);
    out.push(((n >> 8u64) & 0xff) as u8);
    out.push(((n >> 16u64) & 0xff) as u8);
    out.push(((n >> 24u64) & 0xff) as u8);
    out.push(((n >> 32u64) & 0xff) as u8);
    out.push(((n >> 40u64) & 0xff) as u8);
    out.push(((n >> 48u64) & 0xff) as u8);
    out.push(((n >> 56u64) & 0xff) as u8);
    assert(out@ =~= old(out)@ + le64(n));
}

fn push_field(out: &mut Vec<u8>, s: &str)
    ensures
        final(out)@ == old(out)@ + field(s.spec_bytes()),
{
    let n = s.as_bytes().len();
    push_le64(out, n as u64);
    push_bytes(out, s);
    assert(out@ =~= old(out)@ + field(s.spec_bytes()));
}

fn push_bytes(out: &mut Vec<u8>, s: &str)
    ensures
        final(out)@ == old(out)@ + s.spec_bytes(),
{
    let b = s.as_bytes();
    let mut i: usize = 0;
    while i < b.len()
        invariant
            b@ == s.spec_bytes(),
            i <= b@.len(),
            out@ == old(out)@ + b@.subrange(0, i as int),
        decreases b.len() - i,
    {
        out.push(b[i]);
        i = i + 1;
        assert(out@ =~= old(out)@ + b@.subrange(0, i as int));
    }
    assert(b@.subrange(0, b@.len() as int) =~= b@);
}

/// The cache key of a compilation: the SHA-256 of source, entry point and
/// stage, each preceded by its length, in lowercase hexadecimal.
pub fn cache_key(source: &str, entry: &str, stage: &str) -> (k: String)
    ensures
        k@ == hex_spec(sha256_spec(cache_input(source, entry, stage))),
        k@.len() == 64,
{
    let mut data: Vec<u8> = Vec::new();
    push_field(&mut data, source);
    push_field(&mut data, entry);
    push_field(&mut data, stage);
    assert(data@ =~= cache_input(source, entry, stage));
    let digest = sha256_digest(data.as_slice());
    let k = hex_text(&digest);
    proof {
        lemma_hex_len(digest@);
    }
    k
}

/// Two hex digits per byte.
pub proof fn lemma_hex_len(bytes: Seq<u8>)
    ensures
        hex_spec(bytes).len() == 2 * bytes.len(),
    decreases bytes.len(),
{
    if bytes.len() > 0 {
        lemma_hex_len(bytes.drop_last());
    }
}

/// File names in the cache directory for a compilation: the compiled module
/// `{key}.spv` and the source written for the compiler, `{key}.slang`.
pub fn cache_file_names(source: &str, entry: &str, stage: &str) -> (names: (String, String))
    ensures
        names.0@ == hex_spec(sha256_spec(cache_input(source, entry, stage))) + ".spv"@,
        names.1@ == hex_spec(sha256_spec(cache_input(source, entry, stage))) + ".slang"@,
{
    let key = cache_key(source, entry, stage);
    let mut spv = key.clone();
    spv.append(".spv");
    let mut src = key;
    src.append(".slang");
    (spv, src)
}

/// What a version query yields: a failed run is a compile error; otherwise
/// the first line of what the compiler printed (empty when it printed nothing).
pub fn version_outcome(success: bool, stdout: &str) -> (r: Result<String, SlangError>)
    ensures
        !success ==> (r matches Err(SlangError::Compile(m)) && m@ == "version query failed"@),
        success ==> (r matches Ok(v) && v@ == first_line_spec(stdout@)),
{
    broadcast use vstd::string::group_string_axioms;
    if !success {
        return Err(SlangError::Compile("version query failed".to_string()));
    }
    Ok(first_line(stdout))
}

/// The arguments that compile the shader source file `src_path` for SPIR-V,
/// with entry point `entry` and stage `stage`, into `out_path`.
pub fn compile_args(src_path: &str, entry: &str, stage: &str, out_path: &str) -> (args: Vec<String>)
    ensures
        views(args@) == seq![src_path@, "-target"@, "spirv"@, "-entry"@, entry@, "-stage"@, stage@, "-o"@, out_path@],
{
    broadcast use vstd::string::group_string_axioms;
    let mut v: Vec<String> = Vec::new();
    v.push(src_path.to_string());
    v.push("-target".to_string());
    v.push("spirv".to_string());
    v.push("-entry".to_string());
    v.push(entry.to_string());
    v.push("-stage".to_string());
    v.push(stage.to_string());
    v.push("-o".to_string());
    v.push(out_path.to_string());
    assert(views(v@) =~= seq![src_path@, "-target"@, "spirv"@, "-entry"@, entry@, "-stage"@, stage@, "-o"@, out_path@]);
    v
}

} // verus!
