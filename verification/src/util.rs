//! Small shared helpers.

use vstd::prelude::*;

use crate::clock;
use crate::clock::Moment;
use crate::paths;
use crate::text;
use crate::text::Class;
use crate::types;

verus! {

// ---------------------------------------------------------------------------
// Digests
// ---------------------------------------------------------------------------

#[verifier::external_type_specification]
#[verifier::external_body]
pub struct ExHasher(blake3::Hasher);

/// The bytes that a hasher has taken in, where it is one of the regular hash
/// function; `None` of a hasher in any other mode.
pub uninterp spec fn absorbed(h: blake3::Hasher) -> Option<Seq<u8>>;

/// The BLAKE3 digest of bytes.
pub uninterp spec fn digest(bytes: Seq<u8>) -> Seq<u8>;

/// `blake3::Hasher::new`: a hasher of the regular hash function, which has
/// taken in nothing.
#[verifier::external_body]
fn new_hasher() -> (r: blake3::Hasher)
    ensures
        absorbed(r) == Some(Seq::<u8>::empty()),
{
    blake3::Hasher::new()
}

/// `blake3::Hasher::update`: the hasher takes in the data behind what it has
/// taken in before. The hash function is defined on less than 2^64 bytes.
#[verifier::external_body]
fn feed(h: &mut blake3::Hasher, data: &Vec<u8>)
    requires
        absorbed(*old(h)) is Some,
        absorbed(*old(h))->0.len() + data@.len() <= i64::MAX,
    ensures
        absorbed(*final(h)) == Some(absorbed(*old(h))->0 + data@),
{
    h.update(data);
}

/// `blake3::Hasher::finalize`: the digest of what the hasher has taken in.
#[verifier::external_body]
fn finalized(h: &blake3::Hasher) -> (r: Vec<u8>)
    requires
        absorbed(*h) is Some,
    ensures
        r@ == digest(absorbed(*h)->0),
{
    h.finalize().as_bytes().to_vec()
}

/// The BLAKE3 hash of a file's full contents, taken in piece by piece (used
/// only for hash dedup and cross-filesystem verification).
pub struct FileHash {
    hasher: blake3::Hasher,
}

impl FileHash {
    /// What every state keeps: the hasher is one of the regular hash function.
    pub closed spec fn wf(self) -> bool {
        absorbed(self.hasher) is Some
    }

    /// The bytes taken in.
    pub closed spec fn bytes(self) -> Seq<u8> {
        absorbed(self.hasher)->0
    }

    /// Nothing taken in.
    pub fn new() -> (r: FileHash)
        ensures
            r.wf(),
            r.bytes() == Seq::<u8>::empty(),
    {
        FileHash { hasher: new_hasher() }
    }

    /// Takes in the next piece of the file. A file has no more bytes than the
    /// largest file offset.
    pub fn update(&mut self, data: &Vec<u8>)
        requires
            old(self).wf(),
            old(self).bytes().len() + data@.len() <= i64::MAX,
        ensures
            final(self).wf(),
            final(self).bytes() == old(self).bytes() + data@,
    {
        feed(&mut self.hasher, data);
    }

    /// The digest of the file.
    pub fn finish(&self) -> (r: Vec<u8>)
        requires
            self.wf(),
        ensures
            r@ == digest(self.bytes()),
    {
        finalized(&self.hasher)
    }
}

// ---------------------------------------------------------------------------
// Times
// ---------------------------------------------------------------------------

/// Convert a filesystem timestamp (seconds since the Unix epoch and
/// nanoseconds) to this machine's wall clock. `None` where it cannot be
/// represented.
pub fn systemtime_to_local_naive(secs: i64, nanos: u32) -> (r: Option<Moment>)
    ensures
        clock::representable_anywhere(secs as int) && nanos < 1000000000 ==> r is Some,
        r is Some ==> clock::representable(secs as int) && nanos < 1000000000,
        r matches Some(m) ==> m.valid() && m.nano == nanos && -clock::DAY_SECONDS < m.unix() - secs
            < clock::DAY_SECONDS,
{
    clock::local_moment(secs, nanos)
}

// ---------------------------------------------------------------------------
// Sizes
// ---------------------------------------------------------------------------

/// `n / d` rounded to the nearest integer, halves to the even one.
pub open spec fn half_even(n: int, d: int) -> int {
    let q = n / d;
    let r = n % d;
    if 2 * r > d || (2 * r == d && q % 2 == 1) {
        q + 1
    } else {
        q
    }
}

/// The distance between neighbouring double-precision numbers at `n`, for
/// integers of at least 2^53; one below.
pub open spec fn quantum(n: int) -> int
    decreases n,
{
    if n < 0x20_0000_0000_0000 {
        1
    } else {
        2 * quantum(n / 2)
    }
}

/// The double-precision number nearest to `n`.
pub open spec fn as_double(n: int) -> int {
    half_even(n, quantum(n)) * quantum(n)
}

/// How often a size can be divided by 1024 before it is less than 1024, up to
/// five times.
pub open spec fn unit_of(size: int) -> int {
    if size < 0x100000 {
        1
    } else if size < 0x40000000 {
        2
    } else if size < 0x10000000000 {
        3
    } else if size < 0x4000000000000 {
        4
    } else {
        5
    }
}

/// The number of bytes in a unit.
pub open spec fn unit_size(unit: int) -> int {
    if unit == 1 {
        0x400
    } else if unit == 2 {
        0x100000
    } else if unit == 3 {
        0x40000000
    } else if unit == 4 {
        0x10000000000
    } else {
        0x4000000000000
    }
}

/// The name of a unit.
pub open spec fn unit_name(unit: int) -> Seq<char> {
    if unit == 1 {
        " KB"@
    } else if unit == 2 {
        " MB"@
    } else if unit == 3 {
        " GB"@
    } else if unit == 4 {
        " TB"@
    } else {
        " PB"@
    }
}

/// A size in binary units, with one decimal from a kilobyte on.
pub open spec fn size_text(bytes: int) -> Seq<char> {
    if bytes < 1024 {
        text::decimal(bytes as nat) + " B"@
    } else {
        let value = as_double(bytes);
        let unit = unit_of(value);
        let tenths = half_even(10 * value, unit_size(unit));
        text::decimal((tenths / 10) as nat) + "."@ + text::decimal((tenths % 10) as nat)
            + unit_name(unit)
    }
}

fn round_half_even(n: u128, d: u128) -> (r: u128)
    requires
        0 < d <= 0x4000000000000,
        n <= 0x1_0000_0000_0000_0000_0000,
    ensures
        r == half_even(n as int, d as int),
        r <= n + 1,
{
    let q: u128 = n / d;
    let m: u128 = n % d;
    proof {
        assert(q <= n) by (nonlinear_arith)
            requires
                q == n as int / d as int,
                d >= 1,
                n >= 0,
        ;
    }
    if 2 * m > d || (2 * m == d && q % 2 == 1) {
        q + 1
    } else {
        q
    }
}

/// The distance between neighbouring double-precision numbers.
fn find_quantum(n: u64) -> (r: u64)
    ensures
        r == quantum(n as int),
        1 <= r <= 2048,
{
    let mut m: u64 = n;
    let mut q: u64 = 1;
    while m >= 0x20_0000_0000_0000
        invariant
            q * quantum(m as int) == quantum(n as int),
            q >= 1,
            m < 0x1_0000_0000_0000_0000,
            q * m <= n,
        decreases m,
    {
        let ghost m0 = m;
        let ghost q0 = q;
        proof {
            assert(q <= 2048) by (nonlinear_arith)
                requires
                    q * m <= n,
                    m >= 0x20_0000_0000_0000,
                    n < 0x1_0000_0000_0000_0000,
                    q >= 1,
            ;
        }
        m = m / 2;
        q = q * 2;
        proof {
            assert(quantum(m0 as int) == 2 * quantum(m as int));
            assert(q * quantum(m as int) == q0 * (2 * quantum(m as int))) by (nonlinear_arith)
                requires
                    q == q0 * 2,
            ;
            assert(q * m <= q0 * m0) by (nonlinear_arith)
                requires
                    q == q0 * 2,
                    m == m0 as int / 2,
                    q0 >= 1,
                    m0 >= 0,
            ;
        }
    }
    proof {
        assert(quantum(m as int) == 1);
        lemma_quantum_bound(n as int);
    }
    q
}

proof fn lemma_quantum_bound(n: int)
    requires
        0 <= n < 0x1_0000_0000_0000_0000,
    ensures
        1 <= quantum(n) <= 2048,
{
    reveal_with_fuel(quantum, 13);
}

/// Human-readable byte size (binary units).
pub fn human_size(bytes: u64) -> (r: String)
    ensures
        r@ == size_text(bytes as int),
{
    if bytes < 1024 {
        let mut r: String = text::unsigned_text(bytes, 0);
        r.append(" B");
        return r;
    }
    let q: u64 = find_quantum(bytes);
    let k: u128 = round_half_even(bytes as u128, q as u128);
    proof {
        lemma_rounded_bound(bytes as int, q as int);
    }
    let value: u128 = k * (q as u128);
    let unit: u128;
    let name: &str;
    if value < 0x100000 {
        unit = 0x400;
        name = " KB";
    } else if value < 0x40000000 {
        unit = 0x100000;
        name = " MB";
    } else if value < 0x10000000000 {
        unit = 0x40000000;
        name = " GB";
    } else if value < 0x4000000000000 {
        unit = 0x10000000000;
        name = " TB";
    } else {
        unit = 0x4000000000000;
        name = " PB";
    }
    let tenths: u128 = round_half_even(10 * value, unit);
    proof {
        lemma_tenths_bound(value as int, unit as int, tenths as int);
    }
    let mut r: String = text::unsigned_text((tenths / 10) as u64, 0);
    r.append(".");
    r.append(text::unsigned_text((tenths % 10) as u64, 0).as_str());
    r.append(name);
    r
}

proof fn lemma_rounded_bound(n: int, q: int)
    requires
        0 <= n < 0x1_0000_0000_0000_0000,
        1 <= q <= 2048,
    ensures
        0 <= half_even(n, q) * q <= n + q,
        half_even(n, q) >= 0,
{
    assert(n == q * (n / q) + n % q) by (nonlinear_arith)
        requires
            q >= 1,
    ;
    assert(0 <= n % q < q) by (nonlinear_arith)
        requires
            q >= 1,
    ;
    assert(n / q >= 0) by (nonlinear_arith)
        requires
            q >= 1,
            n >= 0,
    ;
    let f = n / q;
    assert((f + 1) * q == q * f + q) by (nonlinear_arith);
    assert(f * q == q * f) by (nonlinear_arith);
    assert(0 <= q * f) by (nonlinear_arith)
        requires
            q >= 1,
            f >= 0,
    ;
}

proof fn lemma_tenths_bound(value: int, unit: int, tenths: int)
    requires
        0 <= value <= 0x1_0000_0000_0000_0800,
        1024 <= unit,
        tenths == half_even(10 * value, unit),
    ensures
        0 <= tenths <= 0x1_0000_0000_0000_0000,
{
    let f = (10 * value) / unit;
    assert(0 <= f) by (nonlinear_arith)
        requires
            value >= 0,
            unit >= 1024,
            f == (10 * value) / unit,
    ;
    assert(1024 * f <= 10 * value) by (nonlinear_arith)
        requires
            value >= 0,
            unit >= 1024,
            f == (10 * value) / unit,
    ;
}

// ---------------------------------------------------------------------------
// Words
// ---------------------------------------------------------------------------

/// Whether an answer means yes: `y` or `yes`, blanks and case aside.
pub open spec fn means_yes(line: Seq<char>) -> bool {
    let w = text::ascii_lower(text::trimmed(line, Class::White));
    w == "y"@ || w == "yes"@
}

/// Whether the answer to a confirmation prompt is yes.
pub fn confirmed(line: &str) -> (r: bool)
    ensures
        r == means_yes(line@),
{
    let w: String = text::to_ascii_lower(text::trim_white(line).as_str());
    text::same(w.as_str(), "y") || text::same(w.as_str(), "yes")
}

/// The file name of a path, empty where there is none.
pub fn short_name(p: &str) -> (r: String)
    ensures
        r@ == types::or_empty(paths::name_of(p@)),
{
    match paths::file_name(p) {
        Some(n) => n,
        None => String::new(),
    }
}

} // verus!
