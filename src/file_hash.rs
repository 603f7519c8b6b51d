//! File signatures: sample positions, zero-padded prefixes, FNV-1a digests
//! and their textual form.
use vstd::arithmetic::div_mod::lemma_multiply_divide_lt;
use vstd::arithmetic::mul::lemma_mul_strict_inequality;
use vstd::prelude::*;

verus! {

/// Number of sampled bytes in a `Fast` signature.
pub const SAMPLE_COUNT: usize = 32;

/// A table of sample positions: the i-th sampled byte of a file of length `L`
/// sits at offset `L * samples[i] / cuts`.
#[derive(Clone, Copy, Debug)]
pub struct FastSamples {
    pub samples: [u64; 32],
    pub cuts: u64,
}

/// Offset of the byte picked at position `pos` of `cuts` in a file of length `len`.
pub open spec fn sample_offset(len: nat, pos: nat, cuts: nat) -> nat {
    len * pos / cuts
}

/// The built-in sample table.
pub open spec fn default_samples() -> Seq<u64> {
    seq![
        697, 378, 107, 428, 427, 626, 774, 501, 776, 692, 233, 760, 66, 131, 68, 118, 992,
        362, 436, 354, 980, 932, 686, 869, 474, 313, 432, 746, 1009, 611, 454, 681,
    ]
}

impl FastSamples {
    /// Every position lies strictly before `cuts`, so every offset lies in the file.
    pub open spec fn wf(&self) -> bool {
        &&& self.cuts > 0
        &&& forall|i: int| 0 <= i < 32 ==> #[trigger] self.samples@[i] < self.cuts
    }

    /// The offsets, in table order, that a file of length `len` is sampled at.
    pub open spec fn offsets_spec(&self, len: nat) -> Seq<nat> {
        Seq::new(32, |i: int| sample_offset(len, self.samples@[i] as nat, self.cuts as nat))
    }

    /// The sampled signature of `content`: one byte at each offset, in table order.
    pub open spec fn sampled(&self, content: Seq<u8>) -> Seq<u8> {
        Seq::new(32, |i: int| content[self.offsets_spec(content.len())[i] as int])
    }

    /// The offsets to read for a file of length `len`; each lies inside the file.
    pub fn offsets(&self, len: u64) -> (r: Vec<u64>)
        requires
            self.wf(),
        ensures
            r@.len() == 32,
            forall|i: int| 0 <= i < 32 ==> r@[i] as nat == #[trigger] self.offsets_spec(len as nat)[i],
            len > 0 ==> forall|i: int| 0 <= i < 32 ==> #[trigger] r@[i] < len,
    {
        let mut r: Vec<u64> = Vec::new();
        let mut i: usize = 0;
        while i < SAMPLE_COUNT
            invariant
                self.wf(),
                i <= 32,
                r@.len() == i,
                forall|k: int| 0 <= k < i ==> r@[k] as nat == #[trigger] self.offsets_spec(len as nat)[k],
                len > 0 ==> forall|k: int| 0 <= k < i ==> #[trigger] r@[k] < len,
            decreases 32 - i,
        {
            let pos = self.samples[i];
            proof {
                let (a, b) = (len as int, pos as int);
                assert(0 <= a * b <= 0xffff_ffff_ffff_ffff * 0xffff_ffff_ffff_ffff) by (nonlinear_arith)
                    requires 0 <= a <= 0xffff_ffff_ffff_ffff, 0 <= b <= 0xffff_ffff_ffff_ffff;
            }
            let prod: u128 = (len as u128) * (pos as u128);
            proof {
                assert(pos < self.cuts);
                if len > 0 {
                    lemma_mul_strict_inequality(pos as int, self.cuts as int, len as int);
                    assert(len as int * pos as int == pos as int * len as int) by (nonlinear_arith);
                    assert(self.cuts as int * len as int == len as int * self.cuts as int) by (nonlinear_arith);
                    lemma_multiply_divide_lt(len as int * pos as int, self.cuts as int, len as int);
                } else {
                    assert(len as int * pos as int == 0) by (nonlinear_arith) requires len == 0;
                }
            }
            let off = (prod / (self.cuts as u128)) as u64;
            r.push(off);
            i += 1;
        }
        r
    }
}

/// Determinism of sampled signatures: with one table, two contents of one
/// length that agree at the table's offsets (in particular, the same content
/// read twice) give the same signature; every offset lies inside the content.
pub proof fn lemma_sampled_deterministic(t: FastSamples, c1: Seq<u8>, c2: Seq<u8>)
    requires
        t.wf(),
        c1.len() > 0,
        c1.len() == c2.len(),
        forall|i: int| 0 <= i < 32 ==> c1[#[trigger] t.offsets_spec(c1.len())[i] as int]
            == c2[t.offsets_spec(c1.len())[i] as int],
    ensures
        t.sampled(c1) == t.sampled(c2),
        forall|i: int| 0 <= i < 32 ==> #[trigger] t.offsets_spec(c1.len())[i] < c1.len(),
{
    let len = c1.len();
    assert forall|i: int| 0 <= i < 32 implies #[trigger] t.offsets_spec(len)[i] < len by {
        let pos = t.samples@[i] as int;
        assert(pos < t.cuts);
        lemma_mul_strict_inequality(pos, t.cuts as int, len as int);
        assert(len as int * pos == pos * len as int) by (nonlinear_arith);
        assert(t.cuts as int * len as int == len as int * t.cuts as int) by (nonlinear_arith);
        lemma_multiply_divide_lt(len as int * pos, t.cuts as int, len as int);
    }
    assert(t.sampled(c1) =~= t.sampled(c2));
}

impl Default for FastSamples {
    /// The built-in table of 32 positions out of 1024.
    fn default() -> (r: Self)
        ensures
            r.cuts == 1024,
            r.samples@ == default_samples(),
            r.wf(),
    {
        let r = FastSamples {
            samples: [
                697, 378, 107, 428, 427, 626, 774, 501, 776, 692, 233, 760, 66, 131, 68, 118, 992,
                362, 436, 354, 980, 932, 686, 869, 474, 313, 432, 746, 1009, 611, 454, 681,
            ],
            cuts: 1024,
        };
        assert(r.samples@ =~= default_samples());
        r
    }
}

/// Offset basis of 64-bit FNV-1a.
pub const FNV_OFFSET: u64 = 0xcbf2_9ce4_8422_2325;

/// Prime of 64-bit FNV-1a.
pub const FNV_PRIME: u64 = 0x0000_0100_0000_01b3;

/// One FNV-1a round: xor in the byte, then multiply modulo 2^64.
pub open spec fn fnv_step(h: u64, b: u8) -> u64 {
    vstd::wrapping::u64_specs::wrapping_mul(h ^ (b as u64), FNV_PRIME)
}

/// FNV-1a state after absorbing `data`, starting from state `h`.
pub open spec fn fnv_fold(h: u64, data: Seq<u8>) -> u64
    decreases data.len(),
{
    if data.len() == 0 {
        h
    } else {
        fnv_step(fnv_fold(h, data.drop_last()), data.last())
    }
}

/// The 64-bit FNV-1a digest of `data`.
pub open spec fn fnv_digest(data: Seq<u8>) -> u64 {
    fnv_fold(FNV_OFFSET, data)
}

/// Absorbs `data` into the FNV-1a state `h`; feeding a file chunk by chunk
/// gives its digest.
pub fn fnv_update(h: u64, data: &[u8]) -> (r: u64)
    ensures
        r == fnv_fold(h, data@),
{
    let mut acc = h;
    let mut i: usize = 0;
    while i < data.len()
        invariant
            i <= data@.len(),
            acc == fnv_fold(h, data@.subrange(0, i as int)),
        decreases data.len() - i,
    {
        let b = data[i];
        proof {
            let next = data@.subrange(0, i as int + 1);
            assert(next.drop_last() =~= data@.subrange(0, i as int));
            assert(next.last() == b);
        }
        acc = (acc ^ (b as u64)).wrapping_mul(FNV_PRIME);
        i += 1;
    }
    assert(data@.subrange(0, data@.len() as int) =~= data@);
    acc
}

/// How many bytes to read next, in chunks of at most `cap`, when `left`
/// bytes of a prefix remain to be read (`None`: the whole file is read).
pub fn next_chunk(left: Option<u64>, cap: usize) -> (r: usize)
    ensures
        r == match left {
            Some(l) => if (l as int) < (cap as int) { l as int } else { cap as int },
            None => cap as int,
        },
{
    match left {
        Some(l) => if l < cap as u64 {
            l as usize
        } else {
            cap
        },
        None => cap,
    }
}

/// Absorbing `a` and then `b` is absorbing `a + b`: a file may be hashed in
/// chunks of any sizes.
pub proof fn lemma_fnv_chunks(h: u64, a: Seq<u8>, b: Seq<u8>)
    ensures
        fnv_fold(fnv_fold(h, a), b) == fnv_fold(h, a + b),
    decreases b.len(),
{
    if b.len() == 0 {
        assert(a + b =~= a);
    } else {
        lemma_fnv_chunks(h, a, b.drop_last());
        assert((a + b).drop_last() =~= a + b.drop_last());
        assert((a + b).last() == b.last());
    }
}

/// The first `n` bytes of `read`, with zeros after its end.
pub open spec fn zero_padded(read: Seq<u8>, n: nat) -> Seq<u8> {
    Seq::new(n, |i: int| if i < read.len() { read[i] } else { 0u8 })
}

/// A computed file signature. Signatures of one stage are all of one variant.
#[derive(Clone, Debug)]
pub enum HashResult {
    /// The file's length in bytes.
    Length(u64),
    /// A fixed-size prefix, zero-padded.
    Head(Vec<u8>),
    /// The bytes at the sample offsets, in table order.
    Fast(Vec<u8>),
    /// An FNV-1a digest of a prefix or of the whole file.
    Fnv(u64),
}

/// The mathematical value of a signature.
pub enum HashView {
    Length(u64),
    Head(Seq<u8>),
    Fast(Seq<u8>),
    Fnv(u64),
}

impl View for HashResult {
    type V = HashView;

    open spec fn view(&self) -> HashView {
        match self {
            HashResult::Length(n) => HashView::Length(*n),
            HashResult::Head(v) => HashView::Head(v@),
            HashResult::Fast(v) => HashView::Fast(v@),
            HashResult::Fnv(d) => HashView::Fnv(*d),
        }
    }
}

/// Whether two byte slices hold the same bytes.
pub fn bytes_equal(a: &[u8], b: &[u8]) -> (r: bool)
    ensures
        r == (a@ == b@),
{
    if a.len() != b.len() {
        return false;
    }
    let mut i: usize = 0;
    while i < a.len()
        invariant
            a@.len() == b@.len(),
            i <= a@.len(),
            forall|k: int| 0 <= k < i ==> a@[k] == b@[k],
        decreases a.len() - i,
    {
        if a[i] != b[i] {
            return false;
        }
        i += 1;
    }
    assert(a@ =~= b@);
    true
}

/// Whether two signatures are equal.
pub fn same_hash(a: &HashResult, b: &HashResult) -> (r: bool)
    ensures
        r == (a@ == b@),
{
    match (a, b) {
        (HashResult::Length(x), HashResult::Length(y)) => *x == *y,
        (HashResult::Head(x), HashResult::Head(y)) => bytes_equal(x.as_slice(), y.as_slice()),
        (HashResult::Fast(x), HashResult::Fast(y)) => bytes_equal(x.as_slice(), y.as_slice()),
        (HashResult::Fnv(x), HashResult::Fnv(y)) => *x == *y,
        _ => false,
    }
}

impl PartialEq for HashResult {
    fn eq(&self, other: &HashResult) -> (r: bool) {
        same_hash(self, other)
    }
}

impl vstd::std_specs::cmp::PartialEqSpecImpl for HashResult {
    open spec fn obeys_eq_spec() -> bool {
        true
    }

    open spec fn eq_spec(&self, other: &HashResult) -> bool {
        self@ == other@
    }
}

/// The signature of a prefix: the first `n` bytes read, zero-padded when the
/// file was shorter.
pub fn head_signature(read: &[u8], n: usize) -> (r: HashResult)
    ensures
        r@ == HashView::Head(zero_padded(read@, n as nat)),
{
    let mut v: Vec<u8> = Vec::new();
    let mut i: usize = 0;
    while i < n
        invariant
            i <= n,
            v@ =~= zero_padded(read@, n as nat).subrange(0, i as int),
        decreases n - i,
    {
        if i < read.len() {
            v.push(read[i]);
        } else {
            v.push(0u8);
        }
        i += 1;
    }
    assert(v@ =~= zero_padded(read@, n as nat));
    HashResult::Head(v)
}

/// Big-endian byte `i` (0 is the most significant) of `x`.
pub open spec fn be_byte(x: u64, i: nat) -> u8 {
    ((x >> ((56 - 8 * i) as u64)) & 0xff) as u8
}

/// The eight big-endian bytes of `x`.
pub open spec fn be_bytes(x: u64) -> Seq<u8> {
    Seq::new(8, |i: int| be_byte(x, i as nat))
}

/// The bytes a signature consists of; integers are written big-endian.
pub open spec fn hash_bytes(h: HashView) -> Seq<u8> {
    match h {
        HashView::Length(n) => be_bytes(n),
        HashView::Head(s) => s,
        HashView::Fast(s) => s,
        HashView::Fnv(d) => be_bytes(d),
    }
}

/// Lower-case hexadecimal digit for `n < 16`.
pub open spec fn hex_digit(n: u8) -> char {
    "0123456789abcdef"@[n as int]
}

/// Two lower-case hex digits per byte, in order.
pub open spec fn hex_of(s: Seq<u8>) -> Seq<char>
    decreases s.len(),
{
    if s.len() == 0 {
        seq![]
    } else {
        hex_of(s.drop_last()) + seq![hex_digit(s.last() / 16), hex_digit(s.last() % 16)]
    }
}

fn be_vec(x: u64) -> (r: Vec<u8>)
    ensures
        r@ == be_bytes(x),
{
    let mut v: Vec<u8> = Vec::new();
    let mut i: u64 = 0;
    while i < 8
        invariant
            i <= 8,
            v@ =~= be_bytes(x).subrange(0, i as int),
        decreases 8 - i,
    {
        v.push(((x >> (56 - 8 * i)) & 0xff) as u8);
        i += 1;
    }
    assert(v@ =~= be_bytes(x));
    v
}

impl HashResult {
    /// The signature's bytes; lengths and digests come big-endian.
    pub fn bytes(&self) -> (r: Vec<u8>)
        ensures
            r@ == hash_bytes(self@),
    {
        match self {
            HashResult::Length(n) => be_vec(*n),
            HashResult::Head(v) => v.clone(),
            HashResult::Fast(v) => v.clone(),
            HashResult::Fnv(d) => be_vec(*d),
        }
    }

    /// The signature in lower-case hexadecimal, two digits per byte.
    pub fn hex(&self) -> (r: String)
        ensures
            r@ == hex_of(hash_bytes(self@)),
    {
        let bytes = self.bytes();
        let digits = "0123456789abcdef";
        proof {
            reveal_strlit("0123456789abcdef");
        }
        let mut res = String::new();
        let mut i: usize = 0;
        while i < bytes.len()
            invariant
                i <= bytes@.len(),
                digits@ == "0123456789abcdef"@,
                digits@.len() == 16,
                res@ == hex_of(bytes@.subrange(0, i as int)),
            decreases bytes.len() - i,
        {
            let b = bytes[i];
            let hi = (b / 16) as usize;
            let lo = (b % 16) as usize;
            res.append(digits.substring_char(hi, hi + 1));
            res.append(digits.substring_char(lo, lo + 1));
            proof {
                let next = bytes@.subrange(0, i as int + 1);
                assert(next.drop_last() =~= bytes@.subrange(0, i as int));
                assert(digits@.subrange(hi as int, hi + 1) =~= seq![hex_digit(b / 16)]);
                assert(digits@.subrange(lo as int, lo + 1) =~= seq![hex_digit(b % 16)]);
                assert(res@ =~= hex_of(next));
            }
            i += 1;
        }
        assert(bytes@.subrange(0, bytes@.len() as int) =~= bytes@);
        res
    }
}

/// Which signature a stage computes.
#[derive(Clone, Copy, Debug)]
pub enum EigenOption {
    /// The file's length, from its metadata.
    Length,
    /// The first `n` bytes, zero-padded.
    Head(usize),
    /// One byte at each position of a sample table.
    Fast(FastSamples),
    /// FNV-1a digest of the first `n` bytes.
    Fnv(u64),
    /// FNV-1a digest of the whole file.
    FnvFull,
}

/// An admitted file: its path, its length, and its latest signature.
#[derive(Clone, Debug)]
pub struct FileInfo {
    pub path: String,
    pub len: u64,
    pub hash: HashResult,
}

impl FileInfo {
    /// A file admitted with its metadata length; its first signature is that length.
    pub fn new(path: String, len: u64) -> (r: FileInfo)
        ensures
            r.path@ == path@,
            r.len == len,
            r.hash@ == HashView::Length(len),
    {
        FileInfo { path, len, hash: HashResult::Length(len) }
    }
}

} // verus!
