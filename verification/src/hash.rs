//! Composite keys, the hash-family adapter, and the open-addressing hash
//! table with its three collision-resolution schemes and rehash engine.

use vstd::prelude::*;

use crate::common::CrustyError;

verus! {

/// Mathematical view of a key field: either a 32-bit integer or a text value.
pub enum FieldView {
    Int(i32),
    Str(Seq<char>),
}

/// A key field: a tagged 32-bit integer or string.
#[derive(Debug)]
pub enum Field {
    IntField(i32),
    StringField(String),
}

impl View for Field {
    type V = FieldView;

    open spec fn view(&self) -> FieldView {
        match self {
            Field::IntField(i) => FieldView::Int(*i),
            Field::StringField(s) => FieldView::Str(s@),
        }
    }
}

impl Clone for Field {
    fn clone(&self) -> (r: Self)
        ensures
            r == *self,
    {
        match self {
            Field::IntField(i) => Field::IntField(*i),
            Field::StringField(s) => Field::StringField(s.clone()),
        }
    }
}

impl PartialEq for Field {
    fn eq(&self, other: &Self) -> (r: bool) {
        match (self, other) {
            (Field::IntField(a), Field::IntField(b)) => *a == *b,
            (Field::StringField(a), Field::StringField(b)) => a.eq(b),
            _ => false,
        }
    }
}

impl vstd::std_specs::cmp::PartialEqSpecImpl for Field {
    open spec fn obeys_eq_spec() -> bool {
        true
    }

    open spec fn eq_spec(&self, other: &Self) -> bool {
        self@ == other@
    }
}

/// The big-endian byte encoding of a 32-bit integer, fed to the hash
/// functions below.
pub open spec fn spec_i32_be_bytes(x: i32) -> Seq<u8> {
    let u = x as u32;
    seq![(u >> 24) as u8, (u >> 16) as u8, (u >> 8) as u8, u as u8]
}

/// The little-endian byte encoding of a 32-bit integer, used by `to_bytes`.
pub open spec fn spec_i32_le_bytes(x: i32) -> Seq<u8> {
    let u = x as u32;
    seq![u as u8, (u >> 8) as u8, (u >> 16) as u8, (u >> 24) as u8]
}

fn i32_be_bytes(x: i32) -> (r: Vec<u8>)
    ensures
        r@ == spec_i32_be_bytes(x),
{
    let u = x as u32;
    let mut r: Vec<u8> = Vec::new();
    r.push(#[verifier::truncate] ((u >> 24) as u8));
    r.push(#[verifier::truncate] ((u >> 16) as u8));
    r.push(#[verifier::truncate] ((u >> 8) as u8));
    r.push(#[verifier::truncate] (u as u8));
    proof {
        assert(r@ =~= spec_i32_be_bytes(x));
    }
    r
}

/// What a key field hashes as: integers by their big-endian bytes, strings
/// by their UTF-8 bytes.
pub open spec fn spec_field_bytes(f: FieldView) -> Seq<u8> {
    match f {
        FieldView::Int(i) => spec_i32_be_bytes(i),
        FieldView::Str(s) => vstd::utf8::encode_utf8(s),
    }
}

/// What `farmhash::hash64` returns for a byte string.
pub uninterp spec fn farm_hash64_of(data: Seq<u8>) -> u64;

/// Relies on `farmhash::hash64`, a pure function of the input bytes in this
/// version of the crate.
pub assume_specification [ farmhash::hash64 ](s: &[u8]) -> (r: u64)
    ensures
        r == farm_hash64_of(s@),
;

/// What `mur3::murmurhash3_x86_32` returns for a byte string and seed.
pub uninterp spec fn murmur3_x86_32_of(data: Seq<u8>, seed: u32) -> u32;

/// Relies on `mur3::murmurhash3_x86_32`, a pure function of the input bytes
/// and the seed.
pub assume_specification [ mur3::murmurhash3_x86_32 ](bytes: &[u8], seed: u32) -> (r: u32)
    ensures
        r == murmur3_x86_32_of(bytes@, seed),
;

/// What `t1ha::t1ha0` returns for a byte string and seed.
pub uninterp spec fn t1ha0_of(data: Seq<u8>, seed: u64) -> u64;

/// Relies on `t1ha::t1ha0`. In a default build it resolves to the portable
/// t1ha1 implementation for 64-bit targets, a pure function of the input
/// bytes and the seed.
pub assume_specification [ t1ha::t1ha0 ](data: &[u8], seed: u64) -> (r: u64)
    ensures
        r == t1ha0_of(data@, seed),
;

/// What `std`'s `DefaultHasher` digests a 32-bit integer to.
pub uninterp spec fn std_hash_i32_of(x: i32) -> u64;

/// What `std`'s `DefaultHasher` digests a string to.
pub uninterp spec fn std_hash_str_of(s: Seq<char>) -> u64;

/// Relies on `std::collections::hash_map::DefaultHasher`, which starts from
/// fixed keys, and on `i32`'s `Hash` impl: the digest depends on the value
/// alone.
#[verifier::external_body]
fn std_hash_i32(x: i32) -> (r: u64)
    ensures
        r == std_hash_i32_of(x),
{
    let mut hasher = std::collections::hash_map::DefaultHasher::new();
    std::hash::Hash::hash(&x, &mut hasher);
    std::hash::Hasher::finish(&hasher)
}

/// Relies on `std::collections::hash_map::DefaultHasher`, which starts from
/// fixed keys, and on `str`'s `Hash` impl: the digest depends on the
/// characters alone.
#[verifier::external_body]
fn std_hash_str(s: &str) -> (r: u64)
    ensures
        r == std_hash_str_of(s@),
{
    let mut hasher = std::collections::hash_map::DefaultHasher::new();
    std::hash::Hash::hash(s, &mut hasher);
    std::hash::Hasher::finish(&hasher)
}

/// The `Hashable` trait maps a value to a nonnegative integer under each of
/// the four supported hash families.
pub trait Hashable {
    spec fn spec_farm_hash(&self) -> usize;

    spec fn spec_murmur_hash3(&self) -> usize;

    spec fn spec_t1ha_hash(&self) -> usize;

    spec fn spec_std_hash(&self) -> usize;

    fn farm_hash(&self) -> (r: usize)
        ensures
            r == self.spec_farm_hash(),
    ;

    fn murmur_hash3(&self) -> (r: usize)
        ensures
            r == self.spec_murmur_hash3(),
    ;

    fn t1ha_hash(&self) -> (r: usize)
        ensures
            r == self.spec_t1ha_hash(),
    ;

    fn std_hash(&self) -> (r: usize)
        ensures
            r == self.spec_std_hash(),
    ;
}

impl Hashable for Field {
    open spec fn spec_farm_hash(&self) -> usize {
        farm_hash64_of(spec_field_bytes(self@)) as usize
    }

    open spec fn spec_murmur_hash3(&self) -> usize {
        murmur3_x86_32_of(spec_field_bytes(self@), 0) as usize
    }

    open spec fn spec_t1ha_hash(&self) -> usize {
        t1ha0_of(spec_field_bytes(self@), 0) as usize
    }

    open spec fn spec_std_hash(&self) -> usize {
        match self@ {
            FieldView::Int(i) => std_hash_i32_of(i) as usize,
            FieldView::Str(s) => std_hash_str_of(s) as usize,
        }
    }

    fn farm_hash(&self) -> (r: usize) {
        match self {
            Field::IntField(i) => {
                let b = i32_be_bytes(*i);
                #[verifier::truncate] (farmhash::hash64(b.as_slice()) as usize)
            },
            Field::StringField(s) => {
                #[verifier::truncate] (farmhash::hash64(s.as_str().as_bytes()) as usize)
            },
        }
    }

    fn murmur_hash3(&self) -> (r: usize) {
        match self {
            Field::IntField(i) => {
                let b = i32_be_bytes(*i);
                mur3::murmurhash3_x86_32(b.as_slice(), 0) as usize
            },
            Field::StringField(s) => {
                mur3::murmurhash3_x86_32(s.as_str().as_bytes(), 0) as usize
            },
        }
    }

    fn t1ha_hash(&self) -> (r: usize) {
        match self {
            Field::IntField(i) => {
                let b = i32_be_bytes(*i);
                #[verifier::truncate] (t1ha::t1ha0(b.as_slice(), 0) as usize)
            },
            Field::StringField(s) => {
                #[verifier::truncate] (t1ha::t1ha0(s.as_str().as_bytes(), 0) as usize)
            },
        }
    }

    fn std_hash(&self) -> (r: usize) {
        match self {
            Field::IntField(i) => #[verifier::truncate] (std_hash_i32(*i) as usize),
            Field::StringField(s) => #[verifier::truncate] (std_hash_str(s.as_str()) as usize),
        }
    }
}

impl Field {
    /// Serialize a field: integers as their four little-endian bytes; strings
    /// as a little-endian 64-bit byte-length prefix followed by the UTF-8
    /// bytes padded with zeros to a fixed 128-byte field.
    pub fn to_bytes(&self) -> (r: Vec<u8>)
        requires
            self@ matches FieldView::Str(s) ==> vstd::utf8::encode_utf8(s).len() <= 128,
        ensures
            r@ == spec_field_to_bytes(self@),
    {
        match self {
            Field::IntField(x) => {
                let u = *x as u32;
                let mut r: Vec<u8> = Vec::new();
                r.push(#[verifier::truncate] (u as u8));
                r.push(#[verifier::truncate] ((u >> 8) as u8));
                r.push(#[verifier::truncate] ((u >> 16) as u8));
                r.push(#[verifier::truncate] ((u >> 24) as u8));
                proof {
                    assert(r@ =~= spec_field_to_bytes(self@));
                }
                r
            },
            Field::StringField(s) => {
                let s_bytes: &[u8] = s.as_str().as_bytes();
                let s_len: usize = s_bytes.len();
                let mut r: Vec<u8> = vstd::bytes::u64_to_le_bytes(s_len as u64);
                let mut i: usize = 0;
                while i < s_len
                    invariant
                        i <= s_len,
                        s_len == s_bytes@.len(),
                        r@ == vstd::bytes::spec_u64_to_le_bytes(s_len as u64) + s_bytes@.take(
                            i as int,
                        ),
                    decreases s_len - i,
                {
                    let b: u8 = s_bytes[i];
                    r.push(b);
                    proof {
                        assert(s_bytes@.take(i + 1) =~= s_bytes@.take(i as int).push(b));
                    }
                    i = i + 1;
                }
                let mut pad: usize = 0;
                while pad < 128 - s_len
                    invariant
                        s_len <= 128,
                        pad <= 128 - s_len,
                        s_len == s_bytes@.len(),
                        r@ == vstd::bytes::spec_u64_to_le_bytes(s_len as u64) + s_bytes@.take(
                            s_len as int,
                        ) + Seq::new(pad as nat, |j: int| 0u8),
                    decreases 128 - s_len - pad,
                {
                    r.push(0u8);
                    proof {
                        assert(Seq::new((pad + 1) as nat, |j: int| 0u8) =~= Seq::new(
                            pad as nat,
                            |j: int| 0u8,
                        ).push(0u8));
                        assert(r@ =~= vstd::bytes::spec_u64_to_le_bytes(s_len as u64)
                            + s_bytes@.take(s_len as int) + Seq::new((pad + 1) as nat, |j: int| 0u8));
                    }
                    pad = pad + 1;
                }
                proof {
                    assert(s_bytes@.take(s_len as int) =~= s_bytes@);
                    assert(r@ =~= spec_field_to_bytes(self@));
                }
                r
            },
        }
    }

    /// Unwraps integer fields.
    pub fn unwrap_int_field(&self) -> (r: i32)
        requires
            self@ is Int,
        ensures
            self@ == FieldView::Int(r),
    {
        match self {
            Field::IntField(i) => *i,
            _ => vstd::pervasive::unreached(),
        }
    }

    /// Unwraps string fields.
    pub fn unwrap_string_field(&self) -> (r: &str)
        requires
            self@ is Str,
        ensures
            self@ == FieldView::Str(r@),
    {
        match self {
            Field::StringField(s) => s.as_str(),
            _ => vstd::pervasive::unreached(),
        }
    }
}

/// The serialized form of a field, as `to_bytes` returns it.
pub open spec fn spec_field_to_bytes(f: FieldView) -> Seq<u8> {
    match f {
        FieldView::Int(x) => spec_i32_le_bytes(x),
        FieldView::Str(s) => {
            let bytes = vstd::utf8::encode_utf8(s);
            vstd::bytes::spec_u64_to_le_bytes(bytes.len() as u64) + bytes + Seq::new(
                (128 - bytes.len()) as nat,
                |j: int| 0u8,
            )
        },
    }
}

impl Default for Field {
    /// The default field is the integer zero.
    fn default() -> (r: Self)
        ensures
            r@ == FieldView::Int(0),
    {
        Field::IntField(0)
    }
}

/// The supported hash families.
#[derive(Debug, Clone, Copy, PartialEq, Eq, Structural)]
pub enum HashFunction {
    FarmHash,
    MurmurHash3,
    T1haHash,
    StdHash,
}

/// The supported collision-resolution schemes.
#[derive(Debug, Clone, Copy, PartialEq, Eq, Structural)]
pub enum HashScheme {
    LinearProbe,
    RobinHood,
    Hopscotch,
}

/// The supported growth policies: double the per-bucket capacity, or double
/// the number of buckets.
#[derive(Debug, Clone, Copy, PartialEq, Eq, Structural)]
pub enum ExtendOption {
    ExtendBucketSize,
    ExtendBucketNumber,
}

/// Mathematical view of a composite key.
pub type KeyV = (FieldView, FieldView);

pub open spec fn key_view(k: (Field, Field)) -> KeyV {
    (k.0@, k.1@)
}

/// The scalar hash of one field under the chosen family.
pub open spec fn spec_field_hash(f: FieldView, func: HashFunction) -> usize {
    match func {
        HashFunction::FarmHash => farm_hash64_of(spec_field_bytes(f)) as usize,
        HashFunction::MurmurHash3 => murmur3_x86_32_of(spec_field_bytes(f), 0) as usize,
        HashFunction::T1haHash => t1ha0_of(spec_field_bytes(f), 0) as usize,
        HashFunction::StdHash => match f {
            FieldView::Int(i) => std_hash_i32_of(i) as usize,
            FieldView::Str(s) => std_hash_str_of(s) as usize,
        },
    }
}

/// The combined hash of a composite key: the two field hashes added with
/// unsigned 64-bit wrap-around.
pub open spec fn spec_key_hash(k: KeyV, func: HashFunction) -> int {
    (spec_field_hash(k.0, func) + spec_field_hash(k.1, func)) % 0x1_0000_0000_0000_0000
}

/// The home bucket: the low 32 bits of the combined hash, reduced mod the
/// bucket count. Independent of the home-slot projection, which uses the
/// high bits.
pub open spec fn spec_home_bucket(k: KeyV, func: HashFunction, b_num: int) -> int {
    spec_key_hash(k, func) % 0x1_0000_0000 % b_num
}

/// The home slot within a bucket: the high 32 bits of the combined hash,
/// reduced mod the bucket capacity.
pub open spec fn spec_home_slot(k: KeyV, func: HashFunction, b_size: int) -> int {
    spec_key_hash(k, func) / 0x1_0000_0000 % b_size
}

fn field_hash(f: &Field, func: HashFunction) -> (h: usize)
    ensures
        h == spec_field_hash(f@, func),
{
    match func {
        HashFunction::FarmHash => f.farm_hash(),
        HashFunction::MurmurHash3 => f.murmur_hash3(),
        HashFunction::T1haHash => f.t1ha_hash(),
        HashFunction::StdHash => f.std_hash(),
    }
}

fn key_hash(key: (&Field, &Field), func: HashFunction) -> (h: u64)
    ensures
        h == spec_key_hash((key.0@, key.1@), func),
{
    let h1: usize = field_hash(key.0, func);
    let h2: usize = field_hash(key.1, func);
    (h1 as u64).wrapping_add(h2 as u64)
}

/// The slot reached after `t` probe steps from home slot `h` in a bucket of
/// `s` slots.
pub open spec fn walk_pos(h: int, t: int, s: int) -> int {
    (h + t) % s
}

/// A slot record: key, aggregated count, occupancy flag, and displacement
/// (probe distance from the home slot).
#[derive(Debug)]
pub struct HashNode {
    pub key: (Field, Field),
    pub value: usize,
    pub taken: bool,
    pub dis: usize,
}

impl Clone for HashNode {
    fn clone(&self) -> (r: Self)
        ensures
            r == *self,
    {
        let r = HashNode {
            key: (self.key.0.clone(), self.key.1.clone()),
            value: self.value,
            taken: self.taken,
            dis: self.dis,
        };
        proof {
            assert(r.key == self.key);
        }
        r
    }
}

impl Default for HashNode {
    /// The default slot is unoccupied, with the displacement sentinel.
    fn default() -> (r: HashNode)
        ensures
            !r.taken,
            r.value == 0,
            r.dis == usize::MAX,
            key_view(r.key) == (FieldView::Int(0), FieldView::Int(0)),
    {
        HashNode {
            key: (Field::IntField(0), Field::IntField(0)),
            value: 0,
            taken: false,
            dis: usize::MAX,
        }
    }
}

/// How much one slot contributes to the stored count of key `k`.
pub open spec fn slot_amt(n: HashNode, k: KeyV) -> nat {
    if n.taken && key_view(n.key) == k {
        n.value as nat
    } else {
        0
    }
}

/// The total count stored for key `k` in one bucket.
pub open spec fn bucket_amt(b: Seq<HashNode>, k: KeyV) -> nat
    decreases b.len(),
{
    if b.len() == 0 {
        0
    } else {
        bucket_amt(b.drop_last(), k) + slot_amt(b.last(), k)
    }
}

/// The total count stored for key `k` across a sequence of buckets.
pub open spec fn table_amt(bs: Seq<Seq<HashNode>>, k: KeyV) -> nat
    decreases bs.len(),
{
    if bs.len() == 0 {
        0
    } else {
        table_amt(bs.drop_last(), k) + bucket_amt(bs.last(), k)
    }
}

/// The number of occupied slots in a bucket.
pub open spec fn bucket_occ(b: Seq<HashNode>) -> nat
    decreases b.len(),
{
    if b.len() == 0 {
        0
    } else {
        bucket_occ(b.drop_last()) + if b.last().taken {
            1nat
        } else {
            0nat
        }
    }
}

proof fn lemma_bucket_amt_update(b: Seq<HashNode>, i: int, n: HashNode)
    requires
        0 <= i < b.len(),
    ensures
        forall|k: KeyV| #[trigger] bucket_amt(b.update(i, n), k) + slot_amt(b[i], k) == bucket_amt(
            b,
            k,
        ) + slot_amt(n, k),
    decreases b.len(),
{
    assert forall|k: KeyV| #[trigger] bucket_amt(b.update(i, n), k) + slot_amt(b[i], k)
        == bucket_amt(b, k) + slot_amt(n, k) by {
        if i == b.len() - 1 {
            assert(b.update(i, n).drop_last() =~= b.drop_last());
            assert(b.update(i, n).last() == n);
        } else {
            assert(b.update(i, n).drop_last() =~= b.drop_last().update(i, n));
            assert(b.update(i, n).last() == b.last());
            lemma_bucket_amt_update(b.drop_last(), i, n);
            assert(bucket_amt(b.drop_last().update(i, n), k) + slot_amt(b.drop_last()[i], k)
                == bucket_amt(b.drop_last(), k) + slot_amt(n, k));
        }
    }
}

proof fn lemma_bucket_occ_update(b: Seq<HashNode>, i: int, n: HashNode)
    requires
        0 <= i < b.len(),
    ensures
        bucket_occ(b.update(i, n)) + (if b[i].taken {
            1nat
        } else {
            0nat
        }) == bucket_occ(b) + (if n.taken {
            1nat
        } else {
            0nat
        }),
    decreases b.len(),
{
    if i == b.len() - 1 {
        assert(b.update(i, n).drop_last() =~= b.drop_last());
    } else {
        assert(b.update(i, n).drop_last() =~= b.drop_last().update(i, n));
        lemma_bucket_occ_update(b.drop_last(), i, n);
    }
}

proof fn lemma_table_amt_update(bs: Seq<Seq<HashNode>>, bi: int, nb: Seq<HashNode>)
    requires
        0 <= bi < bs.len(),
    ensures
        forall|k: KeyV| #[trigger] table_amt(bs.update(bi, nb), k) + bucket_amt(bs[bi], k)
            == table_amt(bs, k) + bucket_amt(nb, k),
    decreases bs.len(),
{
    assert forall|k: KeyV| #[trigger] table_amt(bs.update(bi, nb), k) + bucket_amt(bs[bi], k)
        == table_amt(bs, k) + bucket_amt(nb, k) by {
        if bi == bs.len() - 1 {
            assert(bs.update(bi, nb).drop_last() =~= bs.drop_last());
            assert(bs.update(bi, nb).last() == nb);
        } else {
            assert(bs.update(bi, nb).drop_last() =~= bs.drop_last().update(bi, nb));
            assert(bs.update(bi, nb).last() == bs.last());
            lemma_table_amt_update(bs.drop_last(), bi, nb);
            assert(table_amt(bs.drop_last().update(bi, nb), k) + bucket_amt(bs.drop_last()[bi], k)
                == table_amt(bs.drop_last(), k) + bucket_amt(nb, k));
        }
    }
}

/// The number of occupied slots across a sequence of buckets.
pub open spec fn seqs_occ(bs: Seq<Seq<HashNode>>) -> nat
    decreases bs.len(),
{
    if bs.len() == 0 {
        0
    } else {
        seqs_occ(bs.drop_last()) + bucket_occ(bs.last())
    }
}

proof fn lemma_seqs_occ_empty(bs: Seq<Seq<HashNode>>)
    requires
        forall|x: int| 0 <= x < bs.len() ==> bucket_occ(#[trigger] bs[x]) == 0,
    ensures
        seqs_occ(bs) == 0,
    decreases bs.len(),
{
    if bs.len() > 0 {
        lemma_seqs_occ_empty(bs.drop_last());
    }
}

proof fn lemma_bucket_occ_le_seqs(bs: Seq<Seq<HashNode>>, b: int)
    requires
        0 <= b < bs.len(),
    ensures
        bucket_occ(bs[b]) <= seqs_occ(bs),
    decreases bs.len(),
{
    if b < bs.len() - 1 {
        lemma_bucket_occ_le_seqs(bs.drop_last(), b);
        assert(bs.drop_last()[b] == bs[b]);
    }
}

proof fn lemma_seqs_occ_take_le(bs: Seq<Seq<HashNode>>, n: int)
    requires
        0 <= n <= bs.len(),
    ensures
        seqs_occ(bs.take(n)) <= seqs_occ(bs),
    decreases bs.len(),
{
    if n == bs.len() {
        assert(bs.take(n) =~= bs);
    } else {
        assert(bs.take(n) =~= bs.drop_last().take(n));
        lemma_seqs_occ_take_le(bs.drop_last(), n);
    }
}

proof fn lemma_bucket_occ_take_le(b: Seq<HashNode>, n: int)
    requires
        0 <= n <= b.len(),
    ensures
        bucket_occ(b.take(n)) <= bucket_occ(b),
    decreases b.len(),
{
    if n == b.len() {
        assert(b.take(n) =~= b);
    } else {
        assert(b.take(n) =~= b.drop_last().take(n));
        lemma_bucket_occ_take_le(b.drop_last(), n);
    }
}

proof fn lemma_seqs_occ_update(bs: Seq<Seq<HashNode>>, bi: int, nb: Seq<HashNode>)
    requires
        0 <= bi < bs.len(),
    ensures
        seqs_occ(bs.update(bi, nb)) + bucket_occ(bs[bi]) == seqs_occ(bs) + bucket_occ(nb),
    decreases bs.len(),
{
    if bi == bs.len() - 1 {
        assert(bs.update(bi, nb).drop_last() =~= bs.drop_last());
        assert(bs.update(bi, nb).last() == nb);
    } else {
        assert(bs.update(bi, nb).drop_last() =~= bs.drop_last().update(bi, nb));
        assert(bs.update(bi, nb).last() == bs.last());
        lemma_seqs_occ_update(bs.drop_last(), bi, nb);
    }
}

/// In a bucket where no slot holds key `k`, the stored count for `k` is 0.
proof fn lemma_bucket_amt_none(b: Seq<HashNode>, k: KeyV)
    requires
        forall|j: int| 0 <= j < b.len() ==> slot_amt(#[trigger] b[j], k) == 0,
    ensures
        bucket_amt(b, k) == 0,
    decreases b.len(),
{
    if b.len() > 0 {
        lemma_bucket_amt_none(b.drop_last(), k);
    }
}

/// In a bucket where exactly slot `i` holds key `k`, the stored count for
/// `k` is that slot's value.
proof fn lemma_bucket_amt_single(b: Seq<HashNode>, k: KeyV, i: int)
    requires
        0 <= i < b.len(),
        slot_amt(b[i], k) == b[i].value,
        forall|j: int| 0 <= j < b.len() && j != i ==> slot_amt(#[trigger] b[j], k) == 0,
    ensures
        bucket_amt(b, k) == b[i].value,
    decreases b.len(),
{
    if i == b.len() - 1 {
        lemma_bucket_amt_none(b.drop_last(), k);
    } else {
        lemma_bucket_amt_single(b.drop_last(), k, i);
    }
}

proof fn lemma_table_amt_single(bs: Seq<Seq<HashNode>>, k: KeyV, bi: int, i: int)
    requires
        0 <= bi < bs.len(),
        0 <= i < bs[bi].len(),
        slot_amt(bs[bi][i], k) == bs[bi][i].value,
        forall|b2: int, j: int|
            0 <= b2 < bs.len() && 0 <= j < bs[b2].len() && !(b2 == bi && j == i) ==> slot_amt(
                #[trigger] bs[b2][j],
                k,
            ) == 0,
    ensures
        table_amt(bs, k) == bs[bi][i].value,
    decreases bs.len(),
{
    if bi == bs.len() - 1 {
        lemma_bucket_amt_single(bs.last(), k, i);
        lemma_table_amt_all_none_helper(bs.drop_last(), k);
    } else {
        lemma_table_amt_single(bs.drop_last(), k, bi, i);
        lemma_bucket_amt_none(bs.last(), k);
    }
}

proof fn lemma_table_amt_all_none_helper(bs: Seq<Seq<HashNode>>, k: KeyV)
    requires
        forall|b2: int, j: int|
            0 <= b2 < bs.len() && 0 <= j < bs[b2].len() ==> slot_amt(#[trigger] bs[b2][j], k) == 0,
    ensures
        table_amt(bs, k) == 0,
    decreases bs.len(),
{
    if bs.len() > 0 {
        lemma_table_amt_all_none_helper(bs.drop_last(), k);
        lemma_bucket_amt_none(bs.last(), k);
    }
}

/// A bucket with no occupied slot stores nothing and counts zero occupants.
proof fn lemma_bucket_all_free(b: Seq<HashNode>)
    requires
        forall|j: int| 0 <= j < b.len() ==> !(#[trigger] b[j]).taken,
    ensures
        bucket_occ(b) == 0,
        forall|k: KeyV| #[trigger] bucket_amt(b, k) == 0,
    decreases b.len(),
{
    if b.len() > 0 {
        lemma_bucket_all_free(b.drop_last());
    }
    assert forall|k: KeyV| #[trigger] bucket_amt(b, k) == 0 by {
        lemma_bucket_amt_none(b, k);
    }
}

/// Whether a bit of an H-bit neighborhood bitmap is set; bit `o` (MSB
/// first) speaks for the slot `o` places after the bitmap's own slot.
pub open spec fn hop_bit(word: u64, o: int, hcap: int) -> bool {
    word & (1u64 << ((hcap - 1 - o) as u64)) != 0
}

/// Whether the probe key equals a stored key.
fn keys_eq(a: (&Field, &Field), b: &(Field, Field)) -> (r: bool)
    ensures
        r == ((a.0@, a.1@) == key_view(*b)),
{
    let e0: bool = *a.0 == b.0;
    let e1: bool = *a.1 == b.1;
    e0 && e1
}

/// Where a linear-probe walk stops: a free slot, or the probe key itself.
pub open spec fn lp_stop(bucket: Seq<HashNode>, k: KeyV, i: int) -> bool {
    !bucket[i].taken || key_view(bucket[i].key) == k
}

/// Where a Robin Hood walk stops: a free slot, the probe key, or an
/// occupant less displaced than the walk distance.
pub open spec fn rh_stop(bucket: Seq<HashNode>, k: KeyV, i: int, d: int) -> bool {
    !bucket[i].taken || key_view(bucket[i].key) == k || d > bucket[i].dis
}

/// One more probe step advances the walk position by one slot, cyclically.
proof fn lemma_walk_step(h: int, t: int, s: int)
    requires
        s >= 1,
        h >= 0,
        t >= 0,
    ensures
        walk_pos(h, t + 1, s) == (walk_pos(h, t, s) + 1) % s,
{
    vstd::arithmetic::div_mod::lemma_add_mod_noop(h + t, 1, s);
    if s == 1 {
        assert(walk_pos(h, t + 1, s) == 0);
        assert((walk_pos(h, t, s) + 1) % s == 0);
    } else {
        vstd::arithmetic::div_mod::lemma_small_mod(1nat, s as nat);
    }
}

/// How much a pending (not yet placed) entry contributes to key `k2`.
pub open spec fn pend(k: KeyV, v: nat, k2: KeyV) -> nat {
    if k2 == k {
        v
    } else {
        0
    }
}

/// Two probe steps from the same home land on the same slot only if they
/// are the same step.
proof fn lemma_walk_pos_injective(h: int, t1: int, t2: int, s: int)
    requires
        h >= 0,
        0 <= t1 < s,
        0 <= t2 < s,
        walk_pos(h, t1, s) == walk_pos(h, t2, s),
    ensures
        t1 == t2,
{
    let lo = if t1 <= t2 {
        t1
    } else {
        t2
    };
    let hi = if t1 <= t2 {
        t2
    } else {
        t1
    };
    if lo < hi {
        let a = h + lo;
        let delta = hi - lo;
        vstd::arithmetic::div_mod::lemma_add_mod_noop(a, delta, s);
        vstd::arithmetic::div_mod::lemma_small_mod(delta as nat, s as nat);
        let m = a % s;
        vstd::arithmetic::div_mod::lemma_mod_bound(a, s);
        assert((m + delta) % s == m);
        if m + delta < s {
            vstd::arithmetic::div_mod::lemma_small_mod((m + delta) as nat, s as nat);
        } else {
            vstd::arithmetic::div_mod::lemma_mod_add_multiples_vanish(m + delta - s, s);
            vstd::arithmetic::div_mod::lemma_small_mod((m + delta - s) as nat, s as nat);
        }
    }
}

/// Setting one bit of a bitmap leaves every other bit as it was.
proof fn lemma_bit_set(w: u64, n: u64, m: u64)
    requires
        n < 64,
        m < 64,
    ensures
        (((w | (1u64 << n)) & (1u64 << m)) != 0) == (m == n || (w & (1u64 << m)) != 0),
{
    assert((((w | (1u64 << n)) & (1u64 << m)) != 0) == (m == n || (w & (1u64 << m)) != 0))
        by (bit_vector)
        requires
            n < 64,
            m < 64,
    ;
}

/// Clearing one bit and setting another leaves every other bit as it was.
proof fn lemma_bit_clear_set(w: u64, n1: u64, n2: u64, m: u64)
    requires
        n1 < 64,
        n2 < 64,
        m < 64,
        n1 != n2,
    ensures
        ((((w & !(1u64 << n1)) | (1u64 << n2)) & (1u64 << m)) != 0) == (if m == n2 {
            true
        } else if m == n1 {
            false
        } else {
            (w & (1u64 << m)) != 0
        }),
{
    assert(((((w & !(1u64 << n1)) | (1u64 << n2)) & (1u64 << m)) != 0) == (if m == n2 {
        true
    } else if m == n1 {
        false
    } else {
        (w & (1u64 << m)) != 0
    }))
        by (bit_vector)
        requires
            n1 < 64,
            n2 < 64,
            m < 64,
            n1 != n2,
    ;
}

/// A bucket whose slots are all occupied counts exactly its length.
proof fn lemma_bucket_occ_full(b: Seq<HashNode>)
    requires
        forall|j: int| 0 <= j < b.len() ==> (#[trigger] b[j]).taken,
    ensures
        bucket_occ(b) == b.len(),
    decreases b.len(),
{
    if b.len() > 0 {
        lemma_bucket_occ_full(b.drop_last());
    }
}

/// Every slot of a bucket is reached by some probe step from any home.
proof fn lemma_walk_covers(h: int, x: int, s: int)
    requires
        0 <= h < s,
        0 <= x < s,
    ensures
        0 <= (x - h) % s < s,
        walk_pos(h, (x - h) % s, s) == x,
{
    vstd::arithmetic::div_mod::lemma_mod_bound(x - h, s);
    vstd::arithmetic::div_mod::lemma_add_mod_noop_right(h, x - h, s);
    vstd::arithmetic::div_mod::lemma_small_mod(x as nat, s as nat);
}

/// A zero bitmap claims no slot.
proof fn lemma_hop_bit_zero()
    ensures
        forall|o: int, hcap: int| !(#[trigger] hop_bit(0u64, o, hcap)),
{
    assert forall|o: int, hcap: int| !(#[trigger] hop_bit(0u64, o, hcap)) by {
        let sh = ((hcap - 1 - o) as u64);
        assert(0u64 & (1u64 << sh) == 0) by (bit_vector);
    }
}

/// What became of an entry handed to a bucket-level placement routine:
/// either it was stored (or aggregated), or some entry is still pending and
/// the table must grow.
enum PlaceOutcome {
    Done,
    Leftover((Field, Field), usize),
}

/// HashTable: an ordered sequence of buckets with per-bucket occupancy
/// counters, the configuration, and the rehash engine.
#[allow(non_snake_case)]
pub struct HashTable {
    pub buckets: Vec<Vec<HashNode>>,
    pub taken_count: Vec<usize>,
    pub BUCKET_NUMBER: usize,
    pub BUCKET_SIZE: usize,
    pub function: HashFunction,
    pub scheme: HashScheme,
    pub H: usize,
    pub extend_op: ExtendOption,
    pub hop_info: Vec<Vec<u64>>,
    pub load_factor_num: usize,
    pub load_factor_den: usize,
}

impl HashTable {
    /// The per-bucket occupancy bound: one insert past it triggers a rehash.
    pub open spec fn threshold(self) -> int {
        self.BUCKET_SIZE * self.load_factor_num / self.load_factor_den as int
    }

    pub open spec fn bucket_seqs(self) -> Seq<Seq<HashNode>> {
        self.buckets@.map_values(|b: Vec<HashNode>| b@)
    }

    /// The aggregated count the table stores for key `k`.
    pub open spec fn count_of(self, k: KeyV) -> nat {
        table_amt(self.bucket_seqs(), k)
    }

    /// The number of occupied slots across the whole table.
    pub open spec fn total_occupancy(self) -> nat {
        seqs_occ(self.bucket_seqs())
    }

    /// Every bucket is strictly below its occupancy bound, so the next
    /// insert needs no rehash.
    pub open spec fn below_threshold(self) -> bool {
        forall|b: int|
            0 <= b < self.buckets@.len() ==> (#[trigger] self.taken_count@[b]) < self.threshold()
    }

    /// Whether aggregating `v` onto `k`'s stored count stays within the
    /// machine limit; trivially so when the key is absent.
    pub open spec fn fits_count(self, k: KeyV, v: nat) -> bool {
        self.has_key(k) ==> self.count_of(k) + v <= usize::MAX
    }

    /// The bucket capacity one rehash would produce.
    pub open spec fn grown_size(self) -> int {
        if self.extend_op is ExtendBucketSize {
            2 * self.BUCKET_SIZE
        } else {
            self.BUCKET_SIZE as int
        }
    }

    /// The bucket count one rehash would produce.
    pub open spec fn grown_number(self) -> int {
        if self.extend_op is ExtendBucketNumber {
            2 * self.BUCKET_NUMBER
        } else {
            self.BUCKET_NUMBER as int
        }
    }

    /// The per-bucket occupancy bound one rehash would produce.
    pub open spec fn grown_threshold(self) -> int {
        self.grown_size() * self.load_factor_num / (self.load_factor_den as int)
    }

    /// Whether one rehash stays within the machine limits.
    pub open spec fn can_grow(self) -> bool {
        match self.extend_op {
            ExtendOption::ExtendBucketSize => self.BUCKET_SIZE <= usize::MAX / 2 && 2
                * self.BUCKET_SIZE <= usize::MAX as int / (self.load_factor_num as int),
            ExtendOption::ExtendBucketNumber => self.BUCKET_NUMBER <= usize::MAX / 2
                && self.BUCKET_SIZE <= usize::MAX as int / (self.load_factor_num as int),
        }
    }

    pub open spec fn slot_has(self, b: int, i: int, k: KeyV) -> bool {
        &&& 0 <= b < self.buckets@.len()
        &&& 0 <= i < self.buckets@[b]@.len()
        &&& self.buckets@[b]@[i].taken
        &&& key_view(self.buckets@[b]@[i].key) == k
    }

    /// Whether some occupied slot holds key `k`.
    pub open spec fn has_key(self, k: KeyV) -> bool {
        exists|b: int, i: int| #[trigger] self.slot_has(b, i, k)
    }

    pub open spec fn wf_config(self) -> bool {
        &&& self.BUCKET_NUMBER >= 1
        &&& self.BUCKET_SIZE >= 1
        &&& 1 <= self.H <= 64
        &&& self.H <= self.BUCKET_SIZE
        &&& 1 <= self.load_factor_num <= self.load_factor_den
        &&& self.BUCKET_SIZE * self.load_factor_num <= usize::MAX
    }

    pub open spec fn wf_shape(self) -> bool {
        &&& self.buckets@.len() == self.BUCKET_NUMBER
        &&& self.taken_count@.len() == self.BUCKET_NUMBER
        &&& self.hop_info@.len() == self.BUCKET_NUMBER
        &&& forall|b: int|
            0 <= b < self.BUCKET_NUMBER ==> (#[trigger] self.buckets@[b])@.len()
                == self.BUCKET_SIZE
        &&& forall|b: int|
            0 <= b < self.BUCKET_NUMBER ==> (#[trigger] self.hop_info@[b])@.len()
                == self.BUCKET_SIZE
    }

    /// Scheme-independent slot invariant: an occupant sits in its home
    /// bucket, with a displacement below the bucket capacity; a free slot
    /// holds the default record with the displacement sentinel.
    pub open spec fn node_ok(self, b: int, i: int) -> bool {
        let n = self.buckets@[b]@[i];
        &&& (n.taken ==> {
            &&& spec_home_bucket(key_view(n.key), self.function, self.BUCKET_NUMBER as int) == b
            &&& n.dis < self.BUCKET_SIZE
        })
        &&& (!n.taken ==> {
            &&& n.dis == usize::MAX
            &&& n.value == 0
            &&& key_view(n.key) == (FieldView::Int(0), FieldView::Int(0))
        })
    }

    /// Probe-chain invariant for linear probing and Robin Hood: an occupant's
    /// displacement is its true probe distance, every slot on the walk from
    /// its home is occupied, and under Robin Hood each of those occupants is
    /// at least as displaced as the walk was at that point.
    pub open spec fn probe_path_ok(self, b: int, i: int) -> bool {
        let bucket = self.buckets@[b]@;
        let s = self.BUCKET_SIZE as int;
        let n = bucket[i];
        let h = spec_home_slot(key_view(n.key), self.function, s);
        n.taken ==> {
            &&& i == walk_pos(h, n.dis as int, s)
            &&& forall|t: int|
                0 <= t < n.dis ==> (#[trigger] bucket[walk_pos(h, t, s)]).taken && (
                self.scheme is RobinHood ==> bucket[walk_pos(h, t, s)].dis >= t)
        }
    }

    /// Hopscotch window invariant: an occupant lies within the H-slot
    /// neighborhood of its home slot, and its displacement is its offset.
    pub open spec fn hop_window_ok(self, b: int, i: int) -> bool {
        let bucket = self.buckets@[b]@;
        let s = self.BUCKET_SIZE as int;
        let n = bucket[i];
        let h = spec_home_slot(key_view(n.key), self.function, s);
        n.taken ==> {
            &&& h <= i < h + self.H
            &&& n.dis == i - h
        }
    }

    /// Hopscotch bitmap invariant: bit `o` of `hop[h]` is set exactly when
    /// slot `h + o` holds an occupant whose home slot is `h`.
    pub open spec fn hop_bits_ok(self, b: int, h: int, o: int) -> bool {
        let bucket = self.buckets@[b]@;
        let s = self.BUCKET_SIZE as int;
        hop_bit(self.hop_info@[b]@[h], o, self.H as int) <==> {
            &&& h + o < s
            &&& bucket[h + o].taken
            &&& spec_home_slot(key_view(bucket[h + o].key), self.function, s) == h
        }
    }

    /// No two occupied slots hold equal keys.
    pub open spec fn keys_unique(self) -> bool {
        forall|b1: int, i1: int, b2: int, i2: int|
            {
                &&& 0 <= b1 < self.buckets@.len()
                &&& 0 <= i1 < self.buckets@[b1]@.len()
                &&& 0 <= b2 < self.buckets@.len()
                &&& 0 <= i2 < self.buckets@[b2]@.len()
                &&& (#[trigger] self.buckets@[b1]@[i1]).taken
                &&& (#[trigger] self.buckets@[b2]@[i2]).taken
                &&& key_view(self.buckets@[b1]@[i1].key) == key_view(self.buckets@[b2]@[i2].key)
            } ==> b1 == b2 && i1 == i2
    }

    /// The table's invariant. Besides shape and configuration validity it
    /// carries: occupancy counters that match the buckets, the load-factor
    /// bound on every bucket, key uniqueness, home-bucket placement, and the
    /// per-scheme probe-chain or neighborhood invariants.
    pub open spec fn wf(self) -> bool {
        &&& self.wf_config()
        &&& self.wf_shape()
        &&& forall|b: int|
            0 <= b < self.buckets@.len() ==> (#[trigger] self.taken_count@[b]) == bucket_occ(
                self.buckets@[b]@,
            )
        &&& forall|b: int|
            0 <= b < self.buckets@.len() ==> (#[trigger] self.taken_count@[b])
                <= self.threshold()
        &&& self.keys_unique()
        &&& forall|b: int, i: int|
            0 <= b < self.buckets@.len() && 0 <= i < self.buckets@[b]@.len()
                ==> #[trigger] self.node_ok(b, i)
        &&& (self.scheme is LinearProbe || self.scheme is RobinHood) ==> forall|b: int, i: int|
            0 <= b < self.buckets@.len() && 0 <= i < self.buckets@[b]@.len()
                ==> #[trigger] self.probe_path_ok(b, i)
        &&& self.scheme is Hopscotch ==> forall|b: int, i: int|
            0 <= b < self.buckets@.len() && 0 <= i < self.buckets@[b]@.len()
                ==> #[trigger] self.hop_window_ok(b, i)
        &&& self.scheme is Hopscotch ==> forall|b: int, h: int, o: int|
            0 <= b < self.buckets@.len() && 0 <= h < self.BUCKET_SIZE && 0 <= o < self.H
                ==> #[trigger] self.hop_bits_ok(b, h, o)
        &&& !(self.scheme is Hopscotch) ==> forall|b: int, i: int|
            0 <= b < self.buckets@.len() && 0 <= i < self.hop_info@[b]@.len() ==> (
            #[trigger] self.hop_info@[b]@[i]) == 0u64
    }

    /// The threshold never exceeds the bucket capacity.
    pub proof fn lemma_threshold_le_size(self)
        requires
            self.wf_config(),
        ensures
            self.threshold() <= self.BUCKET_SIZE,
    {
        let s = self.BUCKET_SIZE as int;
        let num = self.load_factor_num as int;
        let den = self.load_factor_den as int;
        assert(s * num <= s * den) by (nonlinear_arith)
            requires num <= den, s >= 0;
        assert(s * num / den <= s * den / den) by (nonlinear_arith)
            requires s * num <= s * den, den >= 1;
        assert(s * den / den == s) by (nonlinear_arith)
            requires den >= 1;
    }

    /// Configuration fields that construction fixes for a table's lifetime.
    pub open spec fn same_config(self, other: Self) -> bool {
        &&& self.function == other.function
        &&& self.scheme == other.scheme
        &&& self.H == other.H
        &&& self.extend_op == other.extend_op
        &&& self.load_factor_num == other.load_factor_num
        &&& self.load_factor_den == other.load_factor_den
    }

    pub open spec fn same_geometry(self, other: Self) -> bool {
        &&& self.BUCKET_NUMBER == other.BUCKET_NUMBER
        &&& self.BUCKET_SIZE == other.BUCKET_SIZE
    }

    /// The table holds exactly what `prev` held, plus an entry of `v` for
    /// key `k`.
    pub open spec fn added(self, prev: Self, k: KeyV, v: nat) -> bool {
        &&& forall|k2: KeyV| #[trigger] self.count_of(k2) == prev.count_of(k2) + pend(k, v, k2)
        &&& forall|k2: KeyV| #[trigger] self.has_key(k2) == (prev.has_key(k2) || k2 == k)
    }

    /// The table plus a pending entry `(ck, cv)` holds exactly what `prev`
    /// held plus a pending entry `(k, v)`.
    pub open spec fn pending_eq(self, prev: Self, ck: KeyV, cv: nat, k: KeyV, v: nat) -> bool {
        &&& forall|k2: KeyV|
            #[trigger] self.count_of(k2) + pend(ck, cv, k2) == prev.count_of(k2) + pend(k, v, k2)
        &&& forall|k2: KeyV|
            ((#[trigger] self.has_key(k2)) || k2 == ck) == (prev.has_key(k2) || k2 == k)
    }

    /// The table holds exactly what `prev` held.
    pub open spec fn unchanged_content(self, prev: Self) -> bool {
        &&& forall|k2: KeyV| #[trigger] self.count_of(k2) == prev.count_of(k2)
        &&& forall|k2: KeyV| #[trigger] self.has_key(k2) == prev.has_key(k2)
    }

    /// Updating one slot changes the stored counts by the difference
    /// between the old and new slot contributions.
    proof fn lemma_update_slot(pre: Self, post: Self, b: int, i: int, n: HashNode)
        requires
            pre.wf_shape(),
            0 <= b < pre.buckets@.len(),
            0 <= i < pre.buckets@[b]@.len(),
            post.buckets@.len() == pre.buckets@.len(),
            post.buckets@[b]@ == pre.buckets@[b]@.update(i, n),
            forall|x: int| 0 <= x < pre.buckets@.len() && x != b ==> post.buckets@[x] == pre.buckets@[x],
        ensures
            forall|k: KeyV|
                #[trigger] post.count_of(k) + slot_amt(pre.buckets@[b]@[i], k) == pre.count_of(k)
                    + slot_amt(n, k),
    {
        let pbs = pre.bucket_seqs();
        let qbs = post.bucket_seqs();
        assert(qbs =~= pbs.update(b, pbs[b].update(i, n)));
        lemma_table_amt_update(pbs, b, pbs[b].update(i, n));
        lemma_bucket_amt_update(pbs[b], i, n);
        assert forall|k: KeyV|
            #[trigger] post.count_of(k) + slot_amt(pre.buckets@[b]@[i], k) == pre.count_of(k)
                + slot_amt(n, k) by {
            assert(table_amt(pbs.update(b, pbs[b].update(i, n)), k) + bucket_amt(pbs[b], k)
                == table_amt(pbs, k) + bucket_amt(pbs[b].update(i, n), k));
            assert(bucket_amt(pbs[b].update(i, n), k) + slot_amt(pbs[b][i], k) == bucket_amt(
                pbs[b],
                k,
            ) + slot_amt(n, k));
        }
    }

    /// After updating one slot (and its bucket's counter), the shape,
    /// counter, load-bound and bitmap conjuncts of the invariant still hold;
    /// the key-dependent conjuncts are the caller's to show.
    proof fn lemma_wf_frame_after_update(pre: Self, post: Self, b: int, i: int, n: HashNode)
        requires
            pre.wf(),
            !(pre.scheme is Hopscotch),
            0 <= b < pre.buckets@.len(),
            0 <= i < pre.buckets@[b]@.len(),
            post.same_config(pre),
            post.same_geometry(pre),
            post.buckets@.len() == pre.buckets@.len(),
            post.buckets@[b]@ == pre.buckets@[b]@.update(i, n),
            forall|x: int| 0 <= x < pre.buckets@.len() && x != b ==> post.buckets@[x] == pre.buckets@[x],
            post.hop_info@ == pre.hop_info@,
            post.taken_count@.len() == pre.taken_count@.len(),
            forall|x: int|
                0 <= x < pre.taken_count@.len() && x != b ==> post.taken_count@[x]
                    == pre.taken_count@[x],
            post.taken_count@[b] == bucket_occ(pre.buckets@[b]@.update(i, n)),
            post.taken_count@[b] <= post.threshold(),
        ensures
            post.wf_config(),
            post.wf_shape(),
            forall|x: int|
                0 <= x < post.buckets@.len() ==> (#[trigger] post.taken_count@[x]) == bucket_occ(
                    post.buckets@[x]@,
                ),
            forall|x: int|
                0 <= x < post.buckets@.len() ==> (#[trigger] post.taken_count@[x])
                    <= post.threshold(),
            !(post.scheme is Hopscotch),
            forall|x: int, j: int|
                0 <= x < post.buckets@.len() && 0 <= j < post.hop_info@[x]@.len() ==> (
                #[trigger] post.hop_info@[x]@[j]) == 0u64,
    {
        assert forall|x: int|
            0 <= x < post.buckets@.len() implies (#[trigger] post.taken_count@[x]) == bucket_occ(
            post.buckets@[x]@,
        ) && post.taken_count@[x] <= post.threshold() by {
            if x != b {
                assert(post.buckets@[x] == pre.buckets@[x]);
                assert(post.taken_count@[x] == pre.taken_count@[x]);
                assert(pre.taken_count@[x] == bucket_occ(pre.buckets@[x]@));
                assert(pre.threshold() == post.threshold());
            }
        }
        assert forall|x: int, j: int|
            0 <= x < post.buckets@.len() && 0 <= j < post.hop_info@[x]@.len() implies (
        #[trigger] post.hop_info@[x]@[j]) == 0u64 by {
            assert(pre.hop_info@[x]@[j] == 0u64);
        }
    }

    /// If a probe walk from a key's home has passed every earlier slot
    /// without meeting the key, and the walk's stop condition rules the
    /// current slot out as well, the key is nowhere in the table.
    proof fn lemma_key_absent(self, ck: KeyV, b: int, h: int, d: int)
        requires
            self.wf(),
            self.scheme is LinearProbe || self.scheme is RobinHood,
            0 <= b < self.BUCKET_NUMBER,
            spec_home_bucket(ck, self.function, self.BUCKET_NUMBER as int) == b,
            h == spec_home_slot(ck, self.function, self.BUCKET_SIZE as int),
            0 <= d < self.BUCKET_SIZE,
            forall|t: int|
                0 <= t < d ==> !((#[trigger] self.buckets@[b]@[walk_pos(h, t, self.BUCKET_SIZE as int)]).taken
                    && key_view(self.buckets@[b]@[walk_pos(h, t, self.BUCKET_SIZE as int)].key) == ck),
            !(self.buckets@[b]@[walk_pos(h, d, self.BUCKET_SIZE as int)].taken && key_view(
                self.buckets@[b]@[walk_pos(h, d, self.BUCKET_SIZE as int)].key,
            ) == ck),
            !self.buckets@[b]@[walk_pos(h, d, self.BUCKET_SIZE as int)].taken || (
            self.scheme is RobinHood && self.buckets@[b]@[walk_pos(h, d, self.BUCKET_SIZE as int)].dis
                < d),
        ensures
            !self.has_key(ck),
    {
        let s = self.BUCKET_SIZE as int;
        if self.has_key(ck) {
            let (b2, p) = choose|b2: int, p: int| #[trigger] self.slot_has(b2, p, ck);
            assert(self.node_ok(b2, p));
            assert(b2 == b);
            assert(self.probe_path_ok(b2, p));
            let n = self.buckets@[b]@[p];
            let dk = n.dis as int;
            assert(p == walk_pos(h, dk, s));
            assert(0 <= dk < s);
            if dk < d {
                assert(self.buckets@[b]@[walk_pos(h, dk, s)].taken);
                assert(false);
            } else if dk == d {
                assert(false);
            } else {
                // the witness's probe path crosses the stop slot
                assert(self.buckets@[b]@[walk_pos(h, d, s)].taken && (self.scheme is RobinHood
                    ==> self.buckets@[b]@[walk_pos(h, d, s)].dis >= d));
                assert(false);
            }
        }
    }

    /// Add a count onto the slot that already stores its key.
    fn aggregate_at(&mut self, b: usize, j: usize, add_value: usize) -> (r: Result<
        (),
        CrustyError,
    >)
        requires
            old(self).wf(),
            b < old(self).BUCKET_NUMBER,
            j < old(self).BUCKET_SIZE,
            old(self).buckets@[b as int]@[j as int].taken,
        ensures
            final(self).wf(),
            final(self).same_config(*old(self)),
            final(self).same_geometry(*old(self)),
            r is Ok ==> final(self).added(
                *old(self),
                key_view(old(self).buckets@[b as int]@[j as int].key),
                add_value as nat,
            ),
            r is Ok ==> final(self).total_occupancy() == old(self).total_occupancy(),
            final(self).hop_info == old(self).hop_info,
            final(self).taken_count == old(self).taken_count,
            r is Err ==> *final(self) == *old(self),
            r is Err ==> old(self).buckets@[b as int]@[j as int].value + add_value > usize::MAX,
    {
        let ghost pre = *old(self);
        let ghost bi = b as int;
        let ghost jj = j as int;
        let ghost s = self.BUCKET_SIZE as int;
        let ghost nold = self.buckets@[bi]@[jj];
        let ghost kv = key_view(nold.key);
        let cur = self.buckets[b][j].value;
        match cur.checked_add(add_value) {
            Some(nv) => {
                let mut n2 = self.buckets[b][j].clone();
                n2.value = nv;
                self.buckets[b][j] = n2;
                proof {
                    let post = *self;
                    lemma_bucket_occ_update(pre.buckets@[bi]@, jj, n2);
                    Self::lemma_update_slot(pre, post, bi, jj, n2);
                    assert(n2.key == nold.key && n2.taken == nold.taken && n2.dis == nold.dis);
                    assert forall|x: int|
                        0 <= x < post.buckets@.len() implies (#[trigger] post.taken_count@[x])
                        == bucket_occ(post.buckets@[x]@) && post.taken_count@[x]
                        <= post.threshold() by {
                        if x != bi {
                            assert(post.buckets@[x] == pre.buckets@[x]);
                        }
                    }
                    assert forall|b2: int, i2: int|
                        #![trigger post.node_ok(b2, i2)]
                        #![trigger post.probe_path_ok(b2, i2)]
                        #![trigger post.hop_window_ok(b2, i2)]
                        0 <= b2 < post.buckets@.len() && 0 <= i2 < post.buckets@[b2]@.len()
                        implies post.node_ok(b2, i2) && ((post.scheme is LinearProbe
                        || post.scheme is RobinHood) ==> post.probe_path_ok(b2, i2)) && (
                        post.scheme is Hopscotch ==> post.hop_window_ok(b2, i2)) by {
                        assert(pre.node_ok(b2, i2));
                        if pre.scheme is LinearProbe || pre.scheme is RobinHood {
                            assert(pre.probe_path_ok(b2, i2));
                        }
                        if pre.scheme is Hopscotch {
                            assert(pre.hop_window_ok(b2, i2));
                        }
                        let m2 = post.buckets@[b2]@[i2];
                        assert(m2.taken == pre.buckets@[b2]@[i2].taken && m2.key
                            == pre.buckets@[b2]@[i2].key && m2.dis == pre.buckets@[b2]@[i2].dis);
                        if m2.taken && (pre.scheme is LinearProbe || pre.scheme is RobinHood) {
                            let h2 = spec_home_slot(key_view(m2.key), post.function, s);
                            assert forall|t: int| 0 <= t < m2.dis implies (
                            #[trigger] post.buckets@[b2]@[walk_pos(h2, t, s)]).taken && (
                            post.scheme is RobinHood ==> post.buckets@[b2]@[walk_pos(
                                h2,
                                t,
                                s,
                            )].dis >= t) by {
                                assert((pre.buckets@[b2]@[walk_pos(h2, t, s)]).taken && (
                                pre.scheme is RobinHood ==> pre.buckets@[b2]@[walk_pos(
                                    h2,
                                    t,
                                    s,
                                )].dis >= t));
                                assert(post.buckets@[b2]@[walk_pos(h2, t, s)].taken
                                    == pre.buckets@[b2]@[walk_pos(h2, t, s)].taken
                                    && post.buckets@[b2]@[walk_pos(h2, t, s)].dis
                                    == pre.buckets@[b2]@[walk_pos(h2, t, s)].dis);
                            }
                        }
                    }
                    assert forall|b2: int, h2: int, o2: int|
                        0 <= b2 < post.buckets@.len() && 0 <= h2 < post.BUCKET_SIZE && 0 <= o2
                            < post.H && post.scheme is Hopscotch implies
                        #[trigger] post.hop_bits_ok(b2, h2, o2) by {
                        assert(pre.hop_bits_ok(b2, h2, o2));
                        if b2 == bi && h2 + o2 == jj {
                            assert(post.buckets@[bi]@[jj].taken == pre.buckets@[bi]@[jj].taken
                                && key_view(post.buckets@[bi]@[jj].key) == key_view(
                                pre.buckets@[bi]@[jj].key,
                            ));
                        } else if b2 == bi && 0 <= h2 + o2 < s {
                            assert(post.buckets@[bi]@[h2 + o2] == pre.buckets@[bi]@[h2 + o2]);
                        }
                    }
                    assert forall|b1: int, i1: int, b2: int, i2: int|
                        {
                            &&& 0 <= b1 < post.buckets@.len()
                            &&& 0 <= i1 < post.buckets@[b1]@.len()
                            &&& 0 <= b2 < post.buckets@.len()
                            &&& 0 <= i2 < post.buckets@[b2]@.len()
                            &&& (#[trigger] post.buckets@[b1]@[i1]).taken
                            &&& (#[trigger] post.buckets@[b2]@[i2]).taken
                            &&& key_view(post.buckets@[b1]@[i1].key) == key_view(
                                post.buckets@[b2]@[i2].key,
                            )
                        } implies b1 == b2 && i1 == i2 by {
                        assert(pre.buckets@[b1]@[i1].taken && pre.buckets@[b2]@[i2].taken
                            && key_view(pre.buckets@[b1]@[i1].key) == key_view(
                            pre.buckets@[b2]@[i2].key,
                        ));
                    }
                    assert(post.wf());
                    assert(post.bucket_seqs() =~= pre.bucket_seqs().update(
                        bi,
                        pre.bucket_seqs()[bi].update(jj, n2),
                    ));
                    lemma_seqs_occ_update(pre.bucket_seqs(), bi, pre.bucket_seqs()[bi].update(jj, n2));
                    assert(post.total_occupancy() == pre.total_occupancy());
                    assert(pre.slot_has(bi, jj, kv));
                    assert forall|k2: KeyV| #[trigger] post.has_key(k2) == (pre.has_key(k2) || k2
                        == kv) by {
                        if post.has_key(k2) {
                            let (b2, i2) = choose|b2: int, i2: int|
                                #[trigger] post.slot_has(b2, i2, k2);
                            assert(pre.slot_has(b2, i2, k2));
                        }
                        if pre.has_key(k2) || k2 == kv {
                            if k2 == kv {
                                assert(post.slot_has(bi, jj, k2));
                            } else {
                                let (b2, i2) = choose|b2: int, i2: int|
                                    #[trigger] pre.slot_has(b2, i2, k2);
                                assert(post.slot_has(b2, i2, k2));
                            }
                            assert(post.has_key(k2));
                        }
                    }
                    assert forall|k2: KeyV| #[trigger] post.count_of(k2) == pre.count_of(k2)
                        + pend(kv, add_value as nat, k2) by {
                        assert(post.count_of(k2) + slot_amt(nold, k2) == pre.count_of(k2)
                            + slot_amt(n2, k2));
                        assert(slot_amt(n2, k2) == slot_amt(nold, k2) + pend(
                            kv,
                            add_value as nat,
                            k2,
                        ));
                    }
                }
                Ok(())
            },
            None => Err(CrustyError::ExecutionError("aggregated count overflows".to_owned())),
        }
    }

    /// Insert an entry into its home bucket under linear probing or Robin
    /// Hood, walking from the home slot. A free slot takes the entry; an
    /// equal key aggregates the count; under Robin Hood a richer occupant is
    /// displaced by an iterative swap and the walk carries the evicted entry
    /// on. A full cycle without a stop reports the entry still pending.
    #[verifier::loop_isolation(false)]
    #[verifier::rlimit(60)]
    fn place_probe(&mut self, key: (Field, Field), value: usize, b: usize) -> (r: Result<
        (),
        CrustyError,
    >)
        requires
            old(self).wf(),
            old(self).scheme is LinearProbe || old(self).scheme is RobinHood,
            b < old(self).BUCKET_NUMBER,
            spec_home_bucket(key_view(key), old(self).function, old(self).BUCKET_NUMBER as int)
                == b,
            old(self).taken_count@[b as int] < old(self).threshold(),
        ensures
            final(self).wf(),
            final(self).same_config(*old(self)),
            final(self).same_geometry(*old(self)),
            match r {
                Ok(_) => final(self).added(*old(self), key_view(key), value as nat)
                    && final(self).total_occupancy() == old(self).total_occupancy() + (if old(self).has_key(key_view(key)) {
                    0nat
                } else {
                    1nat
                }),
                Err(_) => final(self).unchanged_content(*old(self)) && final(self).total_occupancy() == old(self).total_occupancy()
                    && old(self).has_key(key_view(key)) && old(self).count_of(key_view(key))
                    + value > usize::MAX,
            },
    {
        let ghost keyv = key_view(key);
        let ghost orig = *self;
        let s_cap = self.BUCKET_SIZE;
        let mut ck = key;
        let mut cv = value;
        let mut ch = self.home_slot((&ck.0, &ck.1));
        let ghost h0 = ch as int;
        let mut i = ch;
        let mut d: usize = 0;
        let mut steps: usize = 0;
        let ghost mut swapped: bool = false;
        proof {
            vstd::arithmetic::div_mod::lemma_small_mod(ch as nat, s_cap as nat);
        }
        while steps < s_cap
            invariant
                self.wf(),
                self.same_config(orig),
                self.same_geometry(orig),
                self.scheme is LinearProbe || self.scheme is RobinHood,
                s_cap == self.BUCKET_SIZE,
                b < self.BUCKET_NUMBER,
                spec_home_bucket(key_view(ck), self.function, self.BUCKET_NUMBER as int) == b,
                ch == spec_home_slot(key_view(ck), self.function, self.BUCKET_SIZE as int),
                ch < s_cap,
                d <= steps,
                steps <= s_cap,
                i < s_cap,
                i as int == walk_pos(ch as int, d as int, s_cap as int),
                i as int == walk_pos(h0, steps as int, s_cap as int),
                forall|u: int|
                    0 <= u < steps ==> (#[trigger] self.buckets@[b as int]@[walk_pos(
                        h0,
                        u,
                        s_cap as int,
                    )]).taken,
                self.taken_count@[b as int] < self.threshold(),
                forall|t: int|
                    0 <= t < d ==> !((#[trigger] self.buckets@[b as int]@[walk_pos(
                        ch as int,
                        t,
                        s_cap as int,
                    )]).taken && key_view(
                        self.buckets@[b as int]@[walk_pos(ch as int, t, s_cap as int)].key,
                    ) == key_view(ck)),
                forall|t: int|
                    0 <= t < d ==> (#[trigger] self.buckets@[b as int]@[walk_pos(
                        ch as int,
                        t,
                        s_cap as int,
                    )]).taken && (self.scheme is RobinHood ==> self.buckets@[b as int]@[walk_pos(
                        ch as int,
                        t,
                        s_cap as int,
                    )].dis >= t),
                self.pending_eq(orig, key_view(ck), cv as nat, key_view(key), value as nat),
                self.total_occupancy() == orig.total_occupancy(),
                swapped ==> !self.has_key(key_view(ck)),
                swapped ==> !orig.has_key(key_view(key)),
                !swapped ==> ck == key && cv == value && *self == orig,
            decreases s_cap - steps,
        {
            let ghost pre = *self;
            let ghost s = s_cap as int;
            let ghost ckv = key_view(ck);
            let ghost bucket_pre = self.buckets@[b as int]@;
            proof {
                assert(pre.pending_eq(orig, ckv, cv as nat, keyv, value as nat));
            }
            if !self.buckets[b][i].taken {
                // the walk found a free slot: the pending entry settles here
                proof {
                    pre.lemma_key_absent(ckv, b as int, ch as int, d as int);
                }
                let n = HashNode { key: ck, value: cv, taken: true, dis: d };
                self.buckets[b][i] = n;
                let tc = self.taken_count[b];
                self.taken_count[b] = tc + 1;
                proof {
                    let post = *self;
                    let bi = b as int;
                    let ii = i as int;
                    lemma_bucket_occ_update(bucket_pre, ii, n);
                    Self::lemma_update_slot(pre, post, bi, ii, n);
                    assert forall|t: int| 0 <= t < d implies walk_pos(ch as int, t, s) != ii by {
                        if walk_pos(ch as int, t, s) == ii {
                            lemma_walk_pos_injective(ch as int, t, d as int, s);
                        }
                    }
                    assert forall|b2: int, i2: int|
                        #![trigger post.node_ok(b2, i2)]
                        #![trigger post.probe_path_ok(b2, i2)]
                        0 <= b2 < post.buckets@.len() && 0 <= i2 < post.buckets@[b2]@.len()
                        implies post.node_ok(b2, i2) && post.probe_path_ok(b2, i2) by {
                        assert(pre.node_ok(b2, i2));
                        assert(pre.probe_path_ok(b2, i2));
                        if b2 == bi && i2 == ii {
                            assert(post.probe_path_ok(b2, i2));
                        } else {
                            assert(post.buckets@[b2]@[i2] == pre.buckets@[b2]@[i2]);
                            let n2 = post.buckets@[b2]@[i2];
                            if n2.taken {
                                let h2 = spec_home_slot(key_view(n2.key), post.function, s);
                                assert forall|t: int| 0 <= t < n2.dis implies (
                                #[trigger] post.buckets@[b2]@[walk_pos(h2, t, s)]).taken && (
                                post.scheme is RobinHood ==> post.buckets@[b2]@[walk_pos(
                                    h2,
                                    t,
                                    s,
                                )].dis >= t) by {
                                    assert((pre.buckets@[b2]@[walk_pos(h2, t, s)]).taken && (
                                    pre.scheme is RobinHood ==> pre.buckets@[b2]@[walk_pos(
                                        h2,
                                        t,
                                        s,
                                    )].dis >= t));
                                    if b2 == bi {
                                        assert(walk_pos(h2, t, s) != ii);
                                    }
                                }
                            }
                        }
                    }
                    assert forall|b1: int, i1: int, b2: int, i2: int|
                        {
                            &&& 0 <= b1 < post.buckets@.len()
                            &&& 0 <= i1 < post.buckets@[b1]@.len()
                            &&& 0 <= b2 < post.buckets@.len()
                            &&& 0 <= i2 < post.buckets@[b2]@.len()
                            &&& (#[trigger] post.buckets@[b1]@[i1]).taken
                            &&& (#[trigger] post.buckets@[b2]@[i2]).taken
                            &&& key_view(post.buckets@[b1]@[i1].key) == key_view(
                                post.buckets@[b2]@[i2].key,
                            )
                        } implies b1 == b2 && i1 == i2 by {
                        if b1 == bi && i1 == ii {
                            if !(b2 == bi && i2 == ii) {
                                assert(pre.slot_has(b2, i2, ckv));
                                assert(false);
                            }
                        } else if b2 == bi && i2 == ii {
                            assert(pre.slot_has(b1, i1, ckv));
                            assert(false);
                        }
                    }
                    Self::lemma_wf_frame_after_update(pre, post, bi, ii, post.buckets@[bi]@[ii]);
                    assert(post.wf());
                    assert(post.bucket_seqs() =~= pre.bucket_seqs().update(
                        bi,
                        pre.bucket_seqs()[bi].update(ii, n),
                    ));
                    lemma_seqs_occ_update(
                        pre.bucket_seqs(),
                        bi,
                        pre.bucket_seqs()[bi].update(ii, n),
                    );
                    assert(post.total_occupancy() == pre.total_occupancy() + 1);
                    if !swapped {
                        assert(!orig.has_key(keyv));
                    }
                    assert forall|k2: KeyV| #[trigger] post.has_key(k2) == (orig.has_key(k2)
                        || k2 == keyv) by {
                        if post.has_key(k2) {
                            let (b2, i2) = choose|b2: int, i2: int|
                                #[trigger] post.slot_has(b2, i2, k2);
                            if b2 == bi && i2 == ii {
                                assert(k2 == ckv);
                            } else {
                                assert(pre.slot_has(b2, i2, k2));
                            }
                            assert(pre.has_key(k2) || k2 == ckv);
                        }
                        if orig.has_key(k2) || k2 == keyv {
                            assert(pre.has_key(k2) || k2 == ckv);
                            if k2 == ckv {
                                assert(post.slot_has(bi, ii, k2));
                            } else {
                                let (b2, i2) = choose|b2: int, i2: int|
                                    #[trigger] pre.slot_has(b2, i2, k2);
                                assert(post.slot_has(b2, i2, k2));
                            }
                            assert(post.has_key(k2));
                        }
                    }
                    assert forall|k2: KeyV| #[trigger] post.count_of(k2) == orig.count_of(k2)
                        + pend(keyv, value as nat, k2) by {
                        assert(post.count_of(k2) + slot_amt(pre.buckets@[bi]@[ii], k2)
                            == pre.count_of(k2) + slot_amt(n, k2));
                        assert(slot_amt(pre.buckets@[bi]@[ii], k2) == 0);
                        assert(slot_amt(n, k2) == pend(ckv, cv as nat, k2));
                        assert(pre.count_of(k2) + pend(ckv, cv as nat, k2) == orig.count_of(
                            k2,
                        ) + pend(keyv, value as nat, k2));
                    }
                }
                return Ok(());
            }
            let eq_now = keys_eq((&ck.0, &ck.1), &self.buckets[b][i].key);
            if eq_now {
                // the key is already stored: aggregate the counts
                proof {
                    assert(pre.slot_has(b as int, i as int, ckv));
                }
                match self.aggregate_at(b, i, cv) {
                    Ok(()) => {
                        proof {
                            if swapped {
                                assert(pre.has_key(ckv));
                                assert(false);
                            }
                            assert(orig.has_key(keyv));
                            assert forall|k2: KeyV| #[trigger] self.count_of(k2) == orig.count_of(
                                k2,
                            ) + pend(keyv, value as nat, k2) by {
                                assert(self.count_of(k2) == pre.count_of(k2) + pend(
                                    ckv,
                                    cv as nat,
                                    k2,
                                ));
                                assert(pre.count_of(k2) + pend(ckv, cv as nat, k2)
                                    == orig.count_of(k2) + pend(keyv, value as nat, k2));
                            }
                            assert(pre.has_key(ckv));
                            assert forall|k2: KeyV| #[trigger] self.has_key(k2) == (orig.has_key(
                                k2,
                            ) || k2 == keyv) by {
                                assert(self.has_key(k2) == (pre.has_key(k2) || k2 == ckv));
                                assert((pre.has_key(k2) || k2 == ckv) == (orig.has_key(k2) || k2
                                    == keyv));
                            }
                        }
                        return Ok(());
                    },
                    Err(er) => {
                        proof {
                            if swapped {
                                assert(pre.has_key(ckv));
                                assert(false);
                            }
                            assert(pre == orig && ckv == keyv && cv == value);
                            pre.lemma_count_at_slot(b as int, i as int, ckv);
                            assert(orig.count_of(keyv) + value > usize::MAX);
                        }
                        return Err(er);
                    },
                }
            }
            let is_rh = self.scheme == HashScheme::RobinHood;
            let node_dis = self.buckets[b][i].dis;
            if is_rh && d > node_dis {
                // Robin Hood displacement: the pending entry takes this slot
                // and the walk carries the evicted occupant on
                proof {
                    pre.lemma_key_absent(ckv, b as int, ch as int, d as int);
                }
                let evicted = self.buckets[b][i].clone();
                let n = HashNode { key: ck, value: cv, taken: true, dis: d };
                self.buckets[b][i] = n;
                proof {
                    let post = *self;
                    let bi = b as int;
                    let ii = i as int;
                    let ekv = key_view(evicted.key);
                    lemma_bucket_occ_update(bucket_pre, ii, n);
                    Self::lemma_update_slot(pre, post, bi, ii, n);
                    assert forall|t: int| 0 <= t < d implies walk_pos(ch as int, t, s) != ii by {
                        if walk_pos(ch as int, t, s) == ii {
                            lemma_walk_pos_injective(ch as int, t, d as int, s);
                        }
                    }
                    assert(pre.node_ok(bi, ii));
                    assert(pre.probe_path_ok(bi, ii));
                    assert forall|b2: int, i2: int|
                        #![trigger post.node_ok(b2, i2)]
                        #![trigger post.probe_path_ok(b2, i2)]
                        0 <= b2 < post.buckets@.len() && 0 <= i2 < post.buckets@[b2]@.len()
                        implies post.node_ok(b2, i2) && post.probe_path_ok(b2, i2) by {
                        assert(pre.node_ok(b2, i2));
                        assert(pre.probe_path_ok(b2, i2));
                        if b2 == bi && i2 == ii {
                            assert(post.probe_path_ok(b2, i2));
                        } else {
                            assert(post.buckets@[b2]@[i2] == pre.buckets@[b2]@[i2]);
                            let n2 = post.buckets@[b2]@[i2];
                            if n2.taken {
                                let h2 = spec_home_slot(key_view(n2.key), post.function, s);
                                assert forall|t: int| 0 <= t < n2.dis implies (
                                #[trigger] post.buckets@[b2]@[walk_pos(h2, t, s)]).taken && (
                                post.scheme is RobinHood ==> post.buckets@[b2]@[walk_pos(
                                    h2,
                                    t,
                                    s,
                                )].dis >= t) by {
                                    assert((pre.buckets@[b2]@[walk_pos(h2, t, s)]).taken && (
                                    pre.scheme is RobinHood ==> pre.buckets@[b2]@[walk_pos(
                                        h2,
                                        t,
                                        s,
                                    )].dis >= t));
                                    if b2 == bi && walk_pos(h2, t, s) == ii {
                                        assert(post.buckets@[b2]@[ii].taken);
                                        assert(post.buckets@[b2]@[ii].dis == d);
                                    }
                                }
                            }
                        }
                    }
                    assert forall|b1: int, i1: int, b2: int, i2: int|
                        {
                            &&& 0 <= b1 < post.buckets@.len()
                            &&& 0 <= i1 < post.buckets@[b1]@.len()
                            &&& 0 <= b2 < post.buckets@.len()
                            &&& 0 <= i2 < post.buckets@[b2]@.len()
                            &&& (#[trigger] post.buckets@[b1]@[i1]).taken
                            &&& (#[trigger] post.buckets@[b2]@[i2]).taken
                            &&& key_view(post.buckets@[b1]@[i1].key) == key_view(
                                post.buckets@[b2]@[i2].key,
                            )
                        } implies b1 == b2 && i1 == i2 by {
                        if b1 == bi && i1 == ii {
                            if !(b2 == bi && i2 == ii) {
                                assert(pre.slot_has(b2, i2, ckv));
                                assert(false);
                            }
                        } else if b2 == bi && i2 == ii {
                            assert(pre.slot_has(b1, i1, ckv));
                            assert(false);
                        } else {
                            assert(pre.buckets@[b1]@[i1].taken && pre.buckets@[b2]@[i2].taken);
                        }
                    }
                    Self::lemma_wf_frame_after_update(pre, post, bi, ii, post.buckets@[bi]@[ii]);
                    assert(post.wf());
                    assert(post.bucket_seqs() =~= pre.bucket_seqs().update(
                        bi,
                        pre.bucket_seqs()[bi].update(ii, n),
                    ));
                    lemma_seqs_occ_update(
                        pre.bucket_seqs(),
                        bi,
                        pre.bucket_seqs()[bi].update(ii, n),
                    );
                    assert(post.total_occupancy() == pre.total_occupancy());
                }
                let ghost mid = *self;
                let ghost d_old = d;
                let ghost cv_old = cv;
                let ghost old_i = i as int;
                ck = evicted.key;
                cv = evicted.value;
                ch = self.home_slot((&ck.0, &ck.1));
                d = node_dis + 1;
                i = (i + 1) % s_cap;
                proof {
                    if !swapped {
                        // the displaced walk began with the inserted key, so
                        // the key occupied no slot when the walk displaced
                        assert(!orig.has_key(keyv));
                    }
                    swapped = true;
                    let bi = b as int;
                    let ekv = key_view(ck);
                    let ghost n = mid.buckets@[bi]@[old_i];
                    assert(ckv != ekv);
                    // the evicted occupant's recorded walk becomes the carried walk
                    assert(pre.probe_path_ok(bi, old_i));
                    assert(pre.buckets@[bi]@[old_i] == evicted);
                    assert(old_i == walk_pos(ch as int, node_dis as int, s));
                    lemma_walk_step(ch as int, node_dis as int, s);
                    lemma_walk_step(h0, steps as int, s);
                    assert(i as int == walk_pos(ch as int, d as int, s));
                    assert forall|t: int|
                        0 <= t < d implies (#[trigger] mid.buckets@[bi]@[walk_pos(
                        ch as int,
                        t,
                        s,
                    )]).taken && (mid.scheme is RobinHood ==> mid.buckets@[bi]@[walk_pos(
                        ch as int,
                        t,
                        s,
                    )].dis >= t) && !(mid.buckets@[bi]@[walk_pos(ch as int, t, s)].taken
                        && key_view(mid.buckets@[bi]@[walk_pos(ch as int, t, s)].key) == ekv) by {
                        let x = walk_pos(ch as int, t, s);
                        if t < node_dis {
                            if x == old_i {
                                lemma_walk_pos_injective(ch as int, t, node_dis as int, s);
                            }
                            assert(x != old_i);
                            assert((pre.buckets@[bi]@[x]).taken && (pre.scheme is RobinHood
                                ==> pre.buckets@[bi]@[x].dis >= t));
                            assert(mid.buckets@[bi]@[x] == pre.buckets@[bi]@[x]);
                            if key_view(mid.buckets@[bi]@[x].key) == ekv {
                                assert(pre.slot_has(bi, x, ekv));
                                assert(pre.slot_has(bi, old_i, ekv));
                                assert(false);
                            }
                        } else {
                            assert(t == node_dis);
                            assert(x == old_i);
                            assert(mid.buckets@[bi]@[x].taken);
                            assert(mid.buckets@[bi]@[x].dis == d_old);
                            assert(mid.buckets@[bi]@[x].dis >= t);
                            assert(key_view(mid.buckets@[bi]@[x].key) == ckv);
                        }
                    }
                    // the evicted key no longer occurs anywhere
                    assert forall|b2: int, i2: int| !(#[trigger] mid.slot_has(b2, i2, ekv)) by {
                        if mid.slot_has(b2, i2, ekv) {
                            if b2 == bi && i2 == old_i {
                                assert(key_view(mid.buckets@[bi]@[old_i].key) == ckv);
                            } else {
                                assert(pre.slot_has(b2, i2, ekv));
                                assert(pre.slot_has(bi, old_i, ekv));
                                assert(false);
                            }
                        }
                    }
                    assert(!mid.has_key(ekv));
                    // rebalance the pending relation: the placed entry enters
                    // the counts, the evicted entry becomes pending
                    assert forall|k2: KeyV|
                        #[trigger] mid.count_of(k2) + pend(ekv, cv as nat, k2) == old(self).count_of(k2) + pend(keyv, value as nat, k2) by {
                        assert(mid.count_of(k2) + slot_amt(evicted, k2) == pre.count_of(k2)
                            + slot_amt(n, k2));
                        assert(slot_amt(evicted, k2) == pend(ekv, cv as nat, k2));
                        assert(slot_amt(n, k2) == pend(ckv, cv_old as nat, k2));
                        assert(pre.count_of(k2) + pend(ckv, cv_old as nat, k2) == old(self).count_of(k2) + pend(keyv, value as nat, k2));
                    }
                    assert(pre.slot_has(bi, old_i, ekv));
                    assert forall|k2: KeyV|
                        ((#[trigger] mid.has_key(k2)) || k2 == ekv) == (orig.has_key(k2) || k2
                            == keyv) by {
                        assert((pre.has_key(k2) || k2 == ckv) == (orig.has_key(k2) || k2
                            == keyv));
                        if k2 == ckv {
                            assert(mid.slot_has(bi, old_i, k2));
                            assert(mid.has_key(k2));
                        } else if k2 == ekv {
                            assert(pre.has_key(k2));
                        } else {
                            if mid.has_key(k2) {
                                let (b2, i2) = choose|b2: int, i2: int|
                                    #[trigger] mid.slot_has(b2, i2, k2);
                                assert(!(b2 == bi && i2 == old_i));
                                assert(pre.slot_has(b2, i2, k2));
                                assert(pre.has_key(k2));
                            }
                            if pre.has_key(k2) {
                                let (b2, i2) = choose|b2: int, i2: int|
                                    #[trigger] pre.slot_has(b2, i2, k2);
                                assert(!(b2 == bi && i2 == old_i));
                                assert(mid.slot_has(b2, i2, k2));
                                assert(mid.has_key(k2));
                            }
                        }
                    }
                }
                steps = steps + 1;
            } else {
                proof {
                    assert(!lp_stop(bucket_pre, ckv, i as int));
                    lemma_walk_step(ch as int, d as int, s);
                    lemma_walk_step(h0, steps as int, s);
                }
                i = (i + 1) % s_cap;
                d = d + 1;
                steps = steps + 1;
            }
        }
        proof {
            // a full cycle saw only occupied slots, so the bucket is full;
            // the load-factor gate admits no full bucket
            self.lemma_threshold_le_size();
            assert forall|x: int|
                0 <= x < self.buckets@[b as int]@.len() implies (
            #[trigger] self.buckets@[b as int]@[x]).taken by {
                lemma_walk_covers(h0, x, s_cap as int);
                assert(self.buckets@[b as int]@[walk_pos(h0, (x - h0) % (s_cap as int), s_cap as int)].taken);
            }
            lemma_bucket_occ_full(self.buckets@[b as int]@);
            assert(self.taken_count@[b as int] == self.BUCKET_SIZE);
            assert(false);
        }
        vstd::pervasive::unreached()
    }

    /// Place an entry at a free slot inside its home's neighborhood: store
    /// the slot, bump the occupancy counter, and set the home's bitmap bit.
    #[verifier::loop_isolation(false)]
    #[verifier::rlimit(100)]
    fn hop_place_at(&mut self, key: (Field, Field), value: usize, b: usize, h: usize, j: usize)
        requires
            old(self).wf(),
            old(self).scheme is Hopscotch,
            b < old(self).BUCKET_NUMBER,
            spec_home_bucket(key_view(key), old(self).function, old(self).BUCKET_NUMBER as int)
                == b,
            h == spec_home_slot(key_view(key), old(self).function, old(self).BUCKET_SIZE as int),
            h <= j < h + old(self).H,
            j < old(self).BUCKET_SIZE,
            !old(self).buckets@[b as int]@[j as int].taken,
            !old(self).has_key(key_view(key)),
            old(self).taken_count@[b as int] < old(self).threshold(),
        ensures
            final(self).wf(),
            final(self).same_config(*old(self)),
            final(self).same_geometry(*old(self)),
            final(self).added(*old(self), key_view(key), value as nat),
            final(self).total_occupancy() == old(self).total_occupancy() + 1,
    {
        let ghost orig = *self;
        let ghost kv = key_view(key);
        let ghost s = self.BUCKET_SIZE as int;
        let ghost bi = b as int;
        let hcap = self.H;
        let n = HashNode { key, value, taken: true, dis: j - h };
        self.buckets[b][j] = n;
        let tc = self.taken_count[b];
        self.taken_count[b] = tc + 1;
        let w = self.hop_info[b][h];
        let sh = (hcap - 1 - (j - h)) as u64;
        let w2 = w | (1u64 << sh);
        self.hop_info[b][h] = w2;
        proof {
            let post = *self;
            let jj = j as int;
            let hh = h as int;
            let hc = hcap as int;
            lemma_bucket_occ_update(orig.buckets@[bi]@, jj, n);
            Self::lemma_update_slot(orig, post, bi, jj, n);
            assert(post.wf_config());
            assert(post.wf_shape());
            assert forall|x: int|
                0 <= x < post.buckets@.len() implies (#[trigger] post.taken_count@[x])
                == bucket_occ(post.buckets@[x]@) && post.taken_count@[x] <= post.threshold() by {
                if x != bi {
                    assert(post.buckets@[x] == orig.buckets@[x]);
                    assert(post.taken_count@[x] == orig.taken_count@[x]);
                    assert(orig.taken_count@[x] == bucket_occ(orig.buckets@[x]@));
                }
            }
            assert forall|b2: int, i2: int|
                #![trigger post.node_ok(b2, i2)]
                #![trigger post.hop_window_ok(b2, i2)]
                0 <= b2 < post.buckets@.len() && 0 <= i2 < post.buckets@[b2]@.len()
                implies post.node_ok(b2, i2) && post.hop_window_ok(b2, i2) by {
                assert(orig.node_ok(b2, i2));
                assert(orig.hop_window_ok(b2, i2));
                if !(b2 == bi && i2 == jj) {
                    assert(post.buckets@[b2]@[i2] == orig.buckets@[b2]@[i2]);
                }
            }
            assert forall|b2: int, h2: int, o2: int|
                0 <= b2 < post.buckets@.len() && 0 <= h2 < post.BUCKET_SIZE && 0 <= o2 < post.H
                implies #[trigger] post.hop_bits_ok(b2, h2, o2) by {
                assert(orig.hop_bits_ok(b2, h2, o2));
                if b2 == bi && h2 == hh {
                    lemma_bit_set(w, sh, (hc - 1 - o2) as u64);
                    assert(post.hop_info@[bi]@[hh] == w2);
                    if o2 == jj - hh {
                        assert((hc - 1 - o2) as u64 == sh);
                        assert(hop_bit(w2, o2, hc));
                    } else {
                        assert((hc - 1 - o2) as u64 != sh);
                        assert(hop_bit(w2, o2, hc) == hop_bit(w, o2, hc));
                        assert(hh + o2 != jj);
                        if 0 <= hh + o2 < s {
                            assert(post.buckets@[bi]@[hh + o2] == orig.buckets@[bi]@[hh + o2]);
                        }
                    }
                } else {
                    assert(post.hop_info@[b2]@[h2] == orig.hop_info@[b2]@[h2]);
                    if b2 == bi && h2 + o2 == jj {
                        assert(!orig.buckets@[bi]@[jj].taken);
                        assert(!hop_bit(orig.hop_info@[bi]@[h2], o2, hc));
                        assert(spec_home_slot(key_view(post.buckets@[bi]@[jj].key), post.function, s)
                            == hh);
                        assert(h2 != hh);
                    } else if b2 == bi && 0 <= h2 + o2 < s {
                        assert(post.buckets@[bi]@[h2 + o2] == orig.buckets@[bi]@[h2 + o2]);
                    }
                }
            }
            assert forall|b1: int, i1: int, b2: int, i2: int|
                {
                    &&& 0 <= b1 < post.buckets@.len()
                    &&& 0 <= i1 < post.buckets@[b1]@.len()
                    &&& 0 <= b2 < post.buckets@.len()
                    &&& 0 <= i2 < post.buckets@[b2]@.len()
                    &&& (#[trigger] post.buckets@[b1]@[i1]).taken
                    &&& (#[trigger] post.buckets@[b2]@[i2]).taken
                    &&& key_view(post.buckets@[b1]@[i1].key) == key_view(
                        post.buckets@[b2]@[i2].key,
                    )
                } implies b1 == b2 && i1 == i2 by {
                if b1 == bi && i1 == jj {
                    if !(b2 == bi && i2 == jj) {
                        assert(orig.slot_has(b2, i2, kv));
                        assert(false);
                    }
                } else if b2 == bi && i2 == jj {
                    assert(orig.slot_has(b1, i1, kv));
                    assert(false);
                }
            }
            assert(post.wf());
            assert(post.bucket_seqs() =~= orig.bucket_seqs().update(
                bi,
                orig.bucket_seqs()[bi].update(jj, n),
            ));
            lemma_seqs_occ_update(orig.bucket_seqs(), bi, orig.bucket_seqs()[bi].update(jj, n));
            assert(post.total_occupancy() == orig.total_occupancy() + 1);
            assert forall|k2: KeyV| #[trigger] post.has_key(k2) == (orig.has_key(k2) || k2 == kv)
                by {
                if post.has_key(k2) {
                    let (b2, i2) = choose|b2: int, i2: int| #[trigger] post.slot_has(b2, i2, k2);
                    if b2 == bi && i2 == jj {
                        assert(k2 == kv);
                    } else {
                        assert(orig.slot_has(b2, i2, k2));
                    }
                }
                if orig.has_key(k2) || k2 == kv {
                    if k2 == kv {
                        assert(post.slot_has(bi, jj, k2));
                    } else {
                        let (b2, i2) = choose|b2: int, i2: int| #[trigger] orig.slot_has(b2, i2, k2);
                        assert(post.slot_has(b2, i2, k2));
                    }
                    assert(post.has_key(k2));
                }
            }
            assert forall|k2: KeyV| #[trigger] post.count_of(k2) == orig.count_of(k2) + pend(
                kv,
                value as nat,
                k2,
            ) by {
                assert(post.count_of(k2) + slot_amt(orig.buckets@[bi]@[jj], k2) == orig.count_of(
                    k2,
                ) + slot_amt(n, k2));
                assert(slot_amt(orig.buckets@[bi]@[jj], k2) == 0);
                assert(slot_amt(n, k2) == pend(kv, value as nat, k2));
            }
        }
    }

    /// One bubble step: move the occupant that a bitmap bit names into the
    /// free slot behind it, update the slots' records and the bitmap, and
    /// leave the occupant's old slot free. Contents and occupancy are
    /// unchanged.
    #[verifier::loop_isolation(false)]
    #[verifier::rlimit(100)]
    fn hop_move(&mut self, b: usize, cand: usize, sel_o: usize, e: usize)
        requires
            old(self).wf(),
            old(self).scheme is Hopscotch,
            b < old(self).BUCKET_NUMBER,
            cand < old(self).BUCKET_SIZE,
            sel_o < old(self).H,
            cand + sel_o < e,
            e < old(self).BUCKET_SIZE,
            e - cand < old(self).H,
            hop_bit(old(self).hop_info@[b as int]@[cand as int], sel_o as int, old(self).H as int),
            !old(self).buckets@[b as int]@[e as int].taken,
        ensures
            final(self).wf(),
            final(self).same_config(*old(self)),
            final(self).same_geometry(*old(self)),
            final(self).unchanged_content(*old(self)),
            final(self).total_occupancy() == old(self).total_occupancy(),
            final(self).taken_count@ == old(self).taken_count@,
            !final(self).buckets@[b as int]@[(cand + sel_o) as int].taken,
            forall|q: KeyV| final(self).has_key(q) == old(self).has_key(q),
    {
        let ghost bi = b as int;
        let ghost s = self.BUCKET_SIZE as int;
        let hcap = self.H;
        let t = cand + sel_o;
        proof {
            assert(self.hop_bits_ok(bi, cand as int, sel_o as int));
            assert(self.buckets@[bi]@[t as int].taken);
            assert(spec_home_slot(
                key_view(self.buckets@[bi]@[t as int].key),
                self.function,
                s,
            ) == cand as int);
        }
        let ghost pre = *self;
        let node = self.buckets[b][t].clone();
        let n_new = HashNode { key: node.key, value: node.value, taken: true, dis: e - cand };
        self.buckets[b][e] = n_new;
        self.buckets[b][t] = HashNode::default();
        let w = self.hop_info[b][cand];
        let n1 = (hcap - 1 - sel_o) as u64;
        let n2 = (hcap - 1 - (e - cand)) as u64;
        let w2 = (w & !(1u64 << n1)) | (1u64 << n2);
        self.hop_info[b][cand] = w2;
        proof {
            let post = *self;
            let ee = e as int;
            let tt = t as int;
            let cc = cand as int;
            let hc = hcap as int;
            let ghost tnode = pre.buckets@[bi]@[tt];
            let ghost free_node = post.buckets@[bi]@[tt];
            assert(n_new.key == tnode.key && n_new.value == tnode.value);
            assert(post.buckets@[bi]@ == pre.buckets@[bi]@.update(ee, n_new).update(
                tt,
                free_node,
            ));
            // occupancy is conserved by the swap
            lemma_bucket_occ_update(pre.buckets@[bi]@, ee, n_new);
            lemma_bucket_occ_update(pre.buckets@[bi]@.update(ee, n_new), tt, free_node);
            lemma_bucket_amt_update(pre.buckets@[bi]@, ee, n_new);
            lemma_bucket_amt_update(pre.buckets@[bi]@.update(ee, n_new), tt, free_node);
            lemma_table_amt_update(
                pre.bucket_seqs(),
                bi,
                pre.buckets@[bi]@.update(ee, n_new).update(tt, free_node),
            );
            assert(post.bucket_seqs() =~= pre.bucket_seqs().update(
                bi,
                pre.buckets@[bi]@.update(ee, n_new).update(tt, free_node),
            ));
            assert forall|x: int|
                0 <= x < post.buckets@.len() implies (#[trigger] post.taken_count@[x])
                == bucket_occ(post.buckets@[x]@) && post.taken_count@[x] <= post.threshold()
                by {
                if x != bi {
                    assert(post.buckets@[x] == pre.buckets@[x]);
                } else {
                    assert(bucket_occ(pre.buckets@[bi]@.update(ee, n_new)) == bucket_occ(
                        pre.buckets@[bi]@,
                    ) + 1);
                    assert(bucket_occ(post.buckets@[bi]@) == bucket_occ(pre.buckets@[bi]@));
                }
            }
            assert forall|k2: KeyV| #[trigger] post.count_of(k2) == pre.count_of(k2) by {
                assert(bucket_amt(pre.buckets@[bi]@.update(ee, n_new), k2) == bucket_amt(
                    pre.buckets@[bi]@,
                    k2,
                ) + slot_amt(n_new, k2));
                assert(slot_amt(pre.buckets@[bi]@.update(ee, n_new)[tt], k2) == slot_amt(
                    tnode,
                    k2,
                ));
                assert(slot_amt(n_new, k2) == slot_amt(tnode, k2));
                assert(bucket_amt(post.buckets@[bi]@, k2) == bucket_amt(pre.buckets@[bi]@, k2));
                assert(post.count_of(k2) == pre.count_of(k2));
            }
            assert forall|b2: int, i2: int|
                #![trigger post.node_ok(b2, i2)]
                #![trigger post.hop_window_ok(b2, i2)]
                0 <= b2 < post.buckets@.len() && 0 <= i2 < post.buckets@[b2]@.len()
                implies post.node_ok(b2, i2) && post.hop_window_ok(b2, i2) by {
                assert(pre.node_ok(b2, i2));
                assert(pre.hop_window_ok(b2, i2));
                if b2 == bi && i2 == ee {
                    assert(pre.node_ok(bi, tt));
                    assert(pre.hop_window_ok(bi, tt));
                    assert(key_view(post.buckets@[bi]@[ee].key) == key_view(tnode.key));
                    assert(cc <= ee < cc + hc);
                } else if !(b2 == bi && i2 == tt) {
                    assert(post.buckets@[b2]@[i2] == pre.buckets@[b2]@[i2]);
                }
            }
            assert forall|b2: int, h2: int, o2: int|
                0 <= b2 < post.buckets@.len() && 0 <= h2 < post.BUCKET_SIZE && 0 <= o2
                    < post.H implies #[trigger] post.hop_bits_ok(b2, h2, o2) by {
                assert(pre.hop_bits_ok(b2, h2, o2));
                if b2 == bi && h2 == cc {
                    lemma_bit_clear_set(w, n1, n2, (hc - 1 - o2) as u64);
                    assert(post.hop_info@[bi]@[cc] == w2);
                    if o2 == ee - cc {
                        assert((hc - 1 - o2) as u64 == n2);
                        assert(hop_bit(w2, o2, hc));
                        assert(post.buckets@[bi]@[ee].taken);
                        assert(spec_home_slot(
                            key_view(post.buckets@[bi]@[ee].key),
                            post.function,
                            s,
                        ) == cc);
                    } else if o2 == sel_o as int {
                        assert((hc - 1 - o2) as u64 == n1);
                        assert(!hop_bit(w2, o2, hc));
                        assert(!post.buckets@[bi]@[tt].taken);
                    } else {
                        assert((hc - 1 - o2) as u64 != n1 && (hc - 1 - o2) as u64 != n2);
                        assert(hop_bit(w2, o2, hc) == hop_bit(w, o2, hc));
                        assert(cc + o2 != tt && cc + o2 != ee);
                        if 0 <= cc + o2 < s {
                            assert(post.buckets@[bi]@[cc + o2] == pre.buckets@[bi]@[cc + o2]);
                        }
                    }
                } else {
                    assert(post.hop_info@[b2]@[h2] == pre.hop_info@[b2]@[h2]);
                    if b2 == bi && h2 + o2 == tt {
                        assert(spec_home_slot(key_view(tnode.key), pre.function, s) == cc);
                        assert(h2 != cc);
                        assert(!hop_bit(pre.hop_info@[bi]@[h2], o2, hc));
                    } else if b2 == bi && h2 + o2 == ee {
                        assert(!pre.buckets@[bi]@[ee].taken);
                        assert(!hop_bit(pre.hop_info@[bi]@[h2], o2, hc));
                        assert(spec_home_slot(
                            key_view(post.buckets@[bi]@[ee].key),
                            post.function,
                            s,
                        ) == cc);
                        assert(h2 != cc);
                    } else if b2 == bi && 0 <= h2 + o2 < s {
                        assert(post.buckets@[bi]@[h2 + o2] == pre.buckets@[bi]@[h2 + o2]);
                    }
                }
            }
            assert forall|b1: int, i1: int, b2: int, i2: int|
                {
                    &&& 0 <= b1 < post.buckets@.len()
                    &&& 0 <= i1 < post.buckets@[b1]@.len()
                    &&& 0 <= b2 < post.buckets@.len()
                    &&& 0 <= i2 < post.buckets@[b2]@.len()
                    &&& (#[trigger] post.buckets@[b1]@[i1]).taken
                    &&& (#[trigger] post.buckets@[b2]@[i2]).taken
                    &&& key_view(post.buckets@[b1]@[i1].key) == key_view(
                        post.buckets@[b2]@[i2].key,
                    )
                } implies b1 == b2 && i1 == i2 by {
                let p1 = if b1 == bi && i1 == ee {
                    tt
                } else {
                    i1
                };
                let p2 = if b2 == bi && i2 == ee {
                    tt
                } else {
                    i2
                };
                assert(pre.buckets@[b1]@[p1].taken && key_view(pre.buckets@[b1]@[p1].key)
                    == key_view(post.buckets@[b1]@[i1].key));
                assert(pre.buckets@[b2]@[p2].taken && key_view(pre.buckets@[b2]@[p2].key)
                    == key_view(post.buckets@[b2]@[i2].key));
                assert(b1 == b2 && p1 == p2);
            }
            assert(post.wf());
            assert(post.bucket_seqs() =~= pre.bucket_seqs().update(
                bi,
                pre.buckets@[bi]@.update(ee, n_new).update(tt, free_node),
            ));
            lemma_seqs_occ_update(
                pre.bucket_seqs(),
                bi,
                pre.buckets@[bi]@.update(ee, n_new).update(tt, free_node),
            );
            assert(post.total_occupancy() == pre.total_occupancy());
            assert forall|k2: KeyV| #[trigger] post.has_key(k2) == pre.has_key(k2) by {
                if post.has_key(k2) {
                    let (b2, i2) = choose|b2: int, i2: int| #[trigger] post.slot_has(b2, i2, k2);
                    if b2 == bi && i2 == ee {
                        assert(pre.slot_has(bi, tt, k2));
                    } else {
                        assert(pre.slot_has(b2, i2, k2));
                    }
                    assert(pre.has_key(k2));
                }
                if pre.has_key(k2) {
                    let (b2, i2) = choose|b2: int, i2: int| #[trigger] pre.slot_has(b2, i2, k2);
                    if b2 == bi && i2 == tt {
                        assert(post.slot_has(bi, ee, k2));
                    } else if b2 == bi && i2 == ee {
                        assert(false);
                    } else {
                        assert(post.slot_has(b2, i2, k2));
                    }
                    assert(post.has_key(k2));
                }
            }
        }
    }

    /// Insert an entry into its home bucket under Hopscotch. The home's
    /// H-slot neighborhood is scanned first for the key, then for a free
    /// slot; failing both, the first free slot beyond the neighborhood is
    /// bubbled backward by content-preserving swaps until it lies within the
    /// neighborhood. If no free slot exists or no swap candidate can move
    /// the free slot closer, the entry is reported still pending.
    #[verifier::loop_isolation(false)]
    #[verifier::rlimit(100)]
    fn place_hopscotch(&mut self, key: (Field, Field), value: usize, b: usize) -> (r: Result<
        PlaceOutcome,
        CrustyError,
    >)
        requires
            old(self).wf(),
            old(self).scheme is Hopscotch,
            b < old(self).BUCKET_NUMBER,
            spec_home_bucket(key_view(key), old(self).function, old(self).BUCKET_NUMBER as int)
                == b,
            old(self).taken_count@[b as int] < old(self).threshold(),
        ensures
            final(self).wf(),
            final(self).same_config(*old(self)),
            final(self).same_geometry(*old(self)),
            match r {
                Ok(PlaceOutcome::Done) => final(self).added(*old(self), key_view(key), value as nat)
                    && final(self).total_occupancy() == old(self).total_occupancy() + (if old(self).has_key(key_view(key)) {
                    0nat
                } else {
                    1nat
                }),
                Ok(PlaceOutcome::Leftover(k2, c2)) => key_view(k2) == key_view(key) && c2
                    == value && final(self).unchanged_content(*old(self))
                    && !final(self).has_key(key_view(key))
                    && !old(self).has_key(key_view(key))
                    && final(self).total_occupancy() == old(self).total_occupancy(),
                Err(_) => final(self).unchanged_content(*old(self)) && final(self).total_occupancy() == old(self).total_occupancy()
                    && old(self).has_key(key_view(key)) && old(self).count_of(key_view(key))
                    + value > usize::MAX,
            },
            // an already-stored key whose new count fits is always aggregated
            old(self).has_key(key_view(key)) && old(self).count_of(key_view(key)) + value
                <= usize::MAX ==> r matches Ok(PlaceOutcome::Done),
            // aggregation touches neither the bitmaps nor the counters
            old(self).has_key(key_view(key)) ==> final(self).hop_info == old(self).hop_info
                && final(self).taken_count == old(self).taken_count,
    {
        let ghost orig = *self;
        let ghost kv = key_view(key);
        let ghost bi = b as int;
        let ghost s = self.BUCKET_SIZE as int;
        let hcap = self.H;
        let s_cap = self.BUCKET_SIZE;
        let h = self.home_slot((&key.0, &key.1));
        let end_win = if s_cap - h < hcap {
            s_cap
        } else {
            h + hcap
        };
        // first pass over the neighborhood: aggregate onto an equal key
        let mut j = h;
        while j < end_win
            invariant
                *self == orig,
                h <= j <= end_win,
                forall|x: int|
                    h <= x < j ==> !((#[trigger] self.buckets@[bi]@[x]).taken && key_view(
                        self.buckets@[bi]@[x].key,
                    ) == kv),
            decreases end_win - j,
        {
            if self.buckets[b][j].taken {
                if keys_eq((&key.0, &key.1), &self.buckets[b][j].key) {
                    proof {
                        assert(self.slot_has(bi, j as int, kv));
                    }
                    match self.aggregate_at(b, j, value) {
                        Ok(()) => {
                            return Ok(PlaceOutcome::Done);
                        },
                        Err(er) => {
                            proof {
                                orig.lemma_count_at_slot(bi, j as int, kv);
                            }
                            return Err(er);
                        },
                    }
                }
            }
            j = j + 1;
        }
        proof {
            // the key occupies no slot: its neighborhood held no equal key
            if self.has_key(kv) {
                let (b2, i2) = choose|b2: int, i2: int| #[trigger] self.slot_has(b2, i2, kv);
                assert(self.node_ok(b2, i2));
                assert(b2 == bi);
                assert(self.hop_window_ok(b2, i2));
                assert(h <= i2 < h + hcap);
                assert(h <= i2 < end_win);
                assert(false);
            }
        }
        // second pass: a free slot inside the neighborhood takes the entry
        let mut j = h;
        while j < end_win
            invariant
                *self == orig,
                h <= j <= end_win,
            decreases end_win - j,
        {
            if !self.buckets[b][j].taken {
                self.hop_place_at(key, value, b, h, j);
                return Ok(PlaceOutcome::Done);
            }
            j = j + 1;
        }
        // third pass: the first free slot at or beyond the neighborhood
        let mut e = end_win;
        while e < s_cap
            invariant
                *self == orig,
                end_win <= e <= s_cap,
            decreases s_cap - e,
        {
            if !self.buckets[b][e].taken {
                break;
            }
            e = e + 1;
        }
        if e >= s_cap {
            return Ok(PlaceOutcome::Leftover(key, value));
        }
        // bubble the free slot backward into the neighborhood
        loop
            invariant
                self.wf(),
                self.same_config(orig),
                self.same_geometry(orig),
                self.unchanged_content(orig),
                self.total_occupancy() == orig.total_occupancy(),
                !self.has_key(kv),
                self.scheme is Hopscotch,
                h < e < s_cap,
                !self.buckets@[bi]@[e as int].taken,
                self.taken_count@[bi] < self.threshold(),
            decreases e,
        {
            if e - h < hcap {
                self.hop_place_at(key, value, b, h, e);
                return Ok(PlaceOutcome::Done);
            }
            // look for a bitmap bit that claims an occupant before the free
            // slot; the nearest such occupant of the earliest home moves
            let c_start = e + 1 - hcap;
            let mut c = c_start;
            let mut cand: usize = 0;
            let mut sel_o: usize = 0;
            let mut found = false;
            while c < e
                invariant
                    c_start <= c <= e,
                    c_start >= 1,
                    e < s_cap,
                    hcap == self.H,
                    s_cap == self.BUCKET_SIZE,
                    found ==> {
                        &&& c_start <= cand as int
                        &&& cand < e
                        &&& sel_o < hcap
                        &&& cand + sel_o < e
                        &&& hop_bit(self.hop_info@[bi]@[cand as int], sel_o as int, hcap as int)
                    },
                decreases e - c,
            {
                let mut o: usize = 0;
                while o < hcap
                    invariant
                        o <= hcap,
                        c < e,
                        e < s_cap,
                        hcap == self.H,
                        s_cap == self.BUCKET_SIZE,
                        found ==> {
                            &&& c_start <= cand as int
                            &&& cand < e
                            &&& sel_o < hcap
                            &&& cand + sel_o < e
                            &&& hop_bit(
                                self.hop_info@[bi]@[cand as int],
                                sel_o as int,
                                hcap as int,
                            )
                        },
                    decreases hcap - o,
                {
                    let w = self.hop_info[b][c];
                    if (w & (1u64 << ((hcap - 1 - o) as u64))) != 0 {
                        if o < e - c {
                            cand = c;
                            sel_o = o;
                            found = true;
                            break;
                        }
                    }
                    o = o + 1;
                }
                if found {
                    break;
                }
                c = c + 1;
            }
            if !found {
                return Ok(PlaceOutcome::Leftover(key, value));
            }
            let t = cand + sel_o;
            self.hop_move(b, cand, sel_o, e);
            proof {
                assert(self.taken_count@[bi] < self.threshold());
            }
            e = t;
        }
    }

    /// Initialize a table: all slots free, all counters and bitmaps zero.
    pub fn new(
        b_size: usize,
        b_num: usize,
        func: HashFunction,
        sche: HashScheme,
        h: usize,
        op: ExtendOption,
        load_num: usize,
        load_den: usize,
    ) -> (t: Self)
        requires
            b_size >= 1,
            b_num >= 1,
            1 <= h <= 64,
            h <= b_size,
            1 <= load_num <= load_den,
            b_size * load_num <= usize::MAX,
        ensures
            t.wf(),
            t.BUCKET_NUMBER == b_num,
            t.BUCKET_SIZE == b_size,
            t.function == func,
            t.scheme == sche,
            t.H == h,
            t.extend_op == op,
            t.load_factor_num == load_num,
            t.load_factor_den == load_den,
            forall|k: KeyV| #[trigger] t.count_of(k) == 0,
            forall|k: KeyV| !(#[trigger] t.has_key(k)),
            forall|b: int| 0 <= b < b_num ==> (#[trigger] t.taken_count@[b]) == 0,
            t.total_occupancy() == 0,
            forall|b: int, i: int|
                0 <= b < b_num && 0 <= i < b_size ==> !(#[trigger] t.buckets@[b]@[i]).taken
                    && t.buckets@[b]@[i].dis == usize::MAX && t.buckets@[b]@[i].value == 0
                    && key_view(t.buckets@[b]@[i].key) == (FieldView::Int(0), FieldView::Int(0)),
    {
        let mut buckets: Vec<Vec<HashNode>> = Vec::new();
        let mut taken_count: Vec<usize> = Vec::new();
        let mut hop_info: Vec<Vec<u64>> = Vec::new();
        let mut b: usize = 0;
        while b < b_num
            invariant
                b <= b_num,
                buckets@.len() == b,
                taken_count@.len() == b,
                hop_info@.len() == b,
                forall|x: int| 0 <= x < b ==> (#[trigger] buckets@[x])@.len() == b_size,
                forall|x: int| 0 <= x < b ==> (#[trigger] hop_info@[x])@.len() == b_size,
                forall|x: int| 0 <= x < b ==> (#[trigger] taken_count@[x]) == 0,
                forall|x: int, i: int|
                    0 <= x < b && 0 <= i < b_size ==> !(#[trigger] buckets@[x]@[i]).taken
                        && buckets@[x]@[i].dis == usize::MAX && buckets@[x]@[i].value == 0
                        && key_view(buckets@[x]@[i].key) == (FieldView::Int(0), FieldView::Int(0)),
                forall|x: int, i: int|
                    0 <= x < b && 0 <= i < b_size ==> (#[trigger] hop_info@[x]@[i]) == 0u64,
            decreases b_num - b,
        {
            let mut bucket: Vec<HashNode> = Vec::new();
            let mut hop: Vec<u64> = Vec::new();
            let mut i: usize = 0;
            while i < b_size
                invariant
                    i <= b_size,
                    bucket@.len() == i,
                    hop@.len() == i,
                    forall|j: int|
                        0 <= j < i ==> !(#[trigger] bucket@[j]).taken && bucket@[j].dis
                            == usize::MAX && bucket@[j].value == 0 && key_view(bucket@[j].key) == (
                        FieldView::Int(0),
                        FieldView::Int(0),
                        ),
                    forall|j: int| 0 <= j < i ==> (#[trigger] hop@[j]) == 0u64,
                decreases b_size - i,
            {
                bucket.push(HashNode::default());
                hop.push(0u64);
                i = i + 1;
            }
            buckets.push(bucket);
            taken_count.push(0);
            hop_info.push(hop);
            b = b + 1;
        }
        let t = HashTable {
            buckets,
            taken_count,
            BUCKET_NUMBER: b_num,
            BUCKET_SIZE: b_size,
            function: func,
            scheme: sche,
            H: h,
            extend_op: op,
            hop_info,
            load_factor_num: load_num,
            load_factor_den: load_den,
        };
        proof {
            assert forall|x: int| 0 <= x < b_num implies (#[trigger] t.taken_count@[x])
                == bucket_occ(t.buckets@[x]@) && t.taken_count@[x] <= t.threshold() by {
                lemma_bucket_all_free(t.buckets@[x]@);
            }
            assert forall|k: KeyV| #[trigger] t.count_of(k) == 0 by {
                assert forall|b2: int, j: int|
                    0 <= b2 < t.bucket_seqs().len() && 0 <= j < t.bucket_seqs()[b2].len() implies
                    slot_amt(#[trigger] t.bucket_seqs()[b2][j], k) == 0 by {
                    assert(!t.buckets@[b2]@[j].taken);
                }
                lemma_table_amt_all_none_helper(t.bucket_seqs(), k);
            }
            assert forall|k: KeyV| !(#[trigger] t.has_key(k)) by {
                assert forall|b2: int, i2: int| !(#[trigger] t.slot_has(b2, i2, k)) by {
                    if 0 <= b2 < t.buckets@.len() && 0 <= i2 < t.buckets@[b2]@.len() {
                        assert(!t.buckets@[b2]@[i2].taken);
                    }
                }
            }
            lemma_hop_bit_zero();
            assert forall|x: int| 0 <= x < t.bucket_seqs().len() implies bucket_occ(
                #[trigger] t.bucket_seqs()[x],
            ) == 0 by {
                lemma_bucket_all_free(t.buckets@[x]@);
            }
            lemma_seqs_occ_empty(t.bucket_seqs());
        }
        t
    }

    /// No bucket holds more occupants than the whole table.
    pub proof fn lemma_bucket_le_total(self, b: int)
        requires
            self.wf(),
            0 <= b < self.buckets@.len(),
        ensures
            self.taken_count@[b] <= self.total_occupancy(),
    {
        lemma_bucket_occ_le_seqs(self.bucket_seqs(), b);
    }

    /// The count stored at an occupied slot is the whole stored count of
    /// its key: keys are unique.
    proof fn lemma_count_at_slot(self, b: int, i: int, k: KeyV)
        requires
            self.wf(),
            self.slot_has(b, i, k),
        ensures
            self.count_of(k) == self.buckets@[b]@[i].value,
    {
        let bs = self.bucket_seqs();
        assert forall|b2: int, j: int|
            0 <= b2 < bs.len() && 0 <= j < bs[b2].len() && !(b2 == b && j == i) implies slot_amt(
            #[trigger] bs[b2][j],
            k,
        ) == 0 by {
            if bs[b2][j].taken && key_view(bs[b2][j].key) == k {
                assert(self.buckets@[b2]@[j].taken);
                assert(self.buckets@[b]@[i].taken);
                assert(false);
            }
        }
        lemma_table_amt_single(bs, k, b, i);
    }

    /// Look up the aggregated count stored for a key: exactly the stored
    /// count when the key is present, nothing when it is absent.
    #[verifier::loop_isolation(false)]
    #[verifier::rlimit(100)]
    pub fn get_value(&self, key: (&Field, &Field)) -> (r: Option<&usize>)
        requires
            self.wf(),
        ensures
            match r {
                Some(v) => self.has_key((key.0@, key.1@)) && *v == self.count_of(
                    (key.0@, key.1@),
                ),
                None => !self.has_key((key.0@, key.1@)),
            },
    {
        let ghost kv = (key.0@, key.1@);
        let ghost s = self.BUCKET_SIZE as int;
        let h64 = key_hash(key, self.function);
        let lo = h64 % 0x1_0000_0000;
        let b = (lo as usize) % self.BUCKET_NUMBER;
        let ghost bi = b as int;
        let s0 = self.home_slot(key);
        let is_hop = self.scheme == HashScheme::Hopscotch;
        if is_hop {
            // consult the neighborhood bitmap: at most H slots are compared
            let hcap = self.H;
            let mut o: usize = 0;
            while o < hcap
                invariant
                    o <= hcap,
                    forall|o2: int|
                        0 <= o2 < o ==> !(hop_bit(
                            self.hop_info@[bi]@[s0 as int],
                            o2,
                            hcap as int,
                        ) && key_view(self.buckets@[bi]@[s0 + o2].key) == kv),
                decreases hcap - o,
            {
                let w = self.hop_info[b][s0];
                if (w & (1u64 << ((hcap - 1 - o) as u64))) != 0 {
                    proof {
                        assert(self.hop_bits_ok(bi, s0 as int, o as int));
                    }
                    let p = s0 + o;
                    if keys_eq(key, &self.buckets[b][p].key) {
                        proof {
                            assert(self.slot_has(bi, p as int, kv));
                            self.lemma_count_at_slot(bi, p as int, kv);
                        }
                        return Some(&self.buckets[b][p].value);
                    }
                }
                o = o + 1;
            }
            proof {
                if self.has_key(kv) {
                    let (b2, p) = choose|b2: int, p: int| #[trigger] self.slot_has(b2, p, kv);
                    assert(self.node_ok(b2, p));
                    assert(b2 == bi);
                    assert(self.hop_window_ok(b2, p));
                    let o2 = p - s0;
                    assert(0 <= o2 < hcap);
                    assert(self.hop_bits_ok(bi, s0 as int, o2));
                    assert(hop_bit(self.hop_info@[bi]@[s0 as int], o2, hcap as int));
                    assert(false);
                }
            }
            None
        } else if self.scheme == HashScheme::RobinHood {
            match self.robin_hood(key, b, s0) {
                Some((i, d)) => {
                    let node_taken = self.buckets[b][i].taken;
                    if node_taken && keys_eq(key, &self.buckets[b][i].key) {
                        proof {
                            assert(self.slot_has(bi, i as int, kv));
                            self.lemma_count_at_slot(bi, i as int, kv);
                        }
                        Some(&self.buckets[b][i].value)
                    } else {
                        proof {
                            self.lemma_key_absent(kv, bi, s0 as int, d as int);
                        }
                        None
                    }
                },
                None => {
                    proof {
                        if self.has_key(kv) {
                            let (b2, p) = choose|b2: int, p: int|
                                #[trigger] self.slot_has(b2, p, kv);
                            assert(self.node_ok(b2, p));
                            assert(b2 == bi);
                            assert(self.probe_path_ok(b2, p));
                            let dk = self.buckets@[bi]@[p].dis as int;
                            assert(!rh_stop(self.buckets@[bi]@, kv, walk_pos(s0 as int, dk, s), dk));
                            assert(false);
                        }
                    }
                    None
                },
            }
        } else {
            match self.probe_linear(key, b, s0) {
                Some((i, d)) => {
                    let node_taken = self.buckets[b][i].taken;
                    if node_taken && keys_eq(key, &self.buckets[b][i].key) {
                        proof {
                            assert(self.slot_has(bi, i as int, kv));
                            self.lemma_count_at_slot(bi, i as int, kv);
                        }
                        Some(&self.buckets[b][i].value)
                    } else {
                        proof {
                            self.lemma_key_absent(kv, bi, s0 as int, d as int);
                        }
                        None
                    }
                },
                None => {
                    proof {
                        if self.has_key(kv) {
                            let (b2, p) = choose|b2: int, p: int|
                                #[trigger] self.slot_has(b2, p, kv);
                            assert(self.node_ok(b2, p));
                            assert(b2 == bi);
                            assert(self.probe_path_ok(b2, p));
                            let dk = self.buckets@[bi]@[p].dis as int;
                            assert(!lp_stop(self.buckets@[bi]@, kv, walk_pos(s0 as int, dk, s)));
                            assert(false);
                        }
                    }
                    None
                },
            }
        }
    }

    /// The probing entry point: the home bucket and the slot where the
    /// scheme's walk from the key's home slot stops, with the walk distance.
    /// Reports failure when the home bucket is full or the walk finds no
    /// stop; under Hopscotch resolution is deferred and the home slot is
    /// returned directly.
    pub fn get_indexes(&self, key: (&Field, &Field)) -> (r: Option<(usize, usize, usize)>)
        requires
            self.wf(),
        ensures
            ({
                let k = (key.0@, key.1@);
                let hb = spec_home_bucket(k, self.function, self.BUCKET_NUMBER as int);
                let hs = spec_home_slot(k, self.function, self.BUCKET_SIZE as int);
                let s = self.BUCKET_SIZE as int;
                match r {
                    Some((b, i, d)) => {
                        &&& b == hb
                        &&& i < s
                        &&& d < s
                        &&& (self.scheme is Hopscotch ==> i == hs && d == 0)
                        &&& (self.scheme is LinearProbe ==> i == walk_pos(hs, d as int, s)
                            && lp_stop(self.buckets@[hb]@, k, i as int) && (forall|t: int|
                            0 <= t < d ==> !lp_stop(self.buckets@[hb]@, k, walk_pos(hs, t, s))))
                        &&& (self.scheme is RobinHood ==> i == walk_pos(hs, d as int, s)
                            && rh_stop(self.buckets@[hb]@, k, i as int, d as int) && (forall|
                            t: int,
                        |
                            0 <= t < d ==> !rh_stop(
                                self.buckets@[hb]@,
                                k,
                                walk_pos(hs, t, s),
                                t,
                            )))
                    },
                    None => {
                        ||| self.taken_count@[hb] >= self.BUCKET_SIZE
                        ||| (self.scheme is LinearProbe && (forall|t: int|
                            0 <= t < s ==> !lp_stop(self.buckets@[hb]@, k, walk_pos(hs, t, s))))
                        ||| (self.scheme is RobinHood && (forall|t: int|
                            0 <= t < s ==> !rh_stop(self.buckets@[hb]@, k, walk_pos(hs, t, s), t)))
                    },
                }
            }),
    {
        let bucket_index = match self.get_bucket_index(key) {
            Some(b) => b,
            None => {
                return None;
            },
        };
        let index = self.home_slot(key);
        if self.scheme == HashScheme::Hopscotch {
            return Some((bucket_index, index, 0));
        }
        if self.scheme == HashScheme::RobinHood {
            match self.robin_hood(key, bucket_index, index) {
                Some((i, d)) => Some((bucket_index, i, d)),
                None => None,
            }
        } else {
            match self.probe_linear(key, bucket_index, index) {
                Some((i, d)) => Some((bucket_index, i, d)),
                None => None,
            }
        }
    }

    /// A mutable borrow of the count stored for a key. The borrow lets the
    /// caller overwrite the count in place; Verus does not track the
    /// table's invariant across the handed-out borrow, so verified callers
    /// use `insert` and `get_value` instead.
    #[verifier::loop_isolation(false)]
    pub fn get_mut_value(&mut self, key: (&Field, &Field)) -> (r: Option<&mut usize>)
        requires
            old(self).wf(),
        ensures
            ({
                let k = (key.0@, key.1@);
                match r {
                    Some(v) => old(self).has_key(k) && *v == old(self).count_of(k),
                    None => !old(self).has_key(k) && *final(self) == *old(self),
                }
            }),
    {
        let ghost kv = (key.0@, key.1@);
        let ghost orig = *self;
        let mut found: bool = false;
        let mut fb: usize = 0;
        let mut fi: usize = 0;
        let mut x: usize = 0;
        // locate the key's slot
        while x < self.BUCKET_NUMBER
            invariant
                *self == orig,
                x <= self.BUCKET_NUMBER,
                !found,
                forall|b2: int, i2: int| 0 <= b2 < x ==> !(#[trigger] self.slot_has(b2, i2, kv)),
            decreases self.BUCKET_NUMBER - x,
        {
            let mut y: usize = 0;
            while y < self.BUCKET_SIZE
                invariant
                    *self == orig,
                    x < self.BUCKET_NUMBER,
                    y <= self.BUCKET_SIZE,
                    !found,
                    forall|i2: int| 0 <= i2 < y ==> !(#[trigger] self.slot_has(x as int, i2, kv)),
                decreases self.BUCKET_SIZE - y,
            {
                if self.buckets[x][y].taken {
                    if keys_eq(key, &self.buckets[x][y].key) {
                        found = true;
                        fb = x;
                        fi = y;
                        break;
                    }
                }
                proof {
                    assert(!self.slot_has(x as int, y as int, kv));
                }
                y = y + 1;
            }
            if found {
                break;
            }
            proof {
                assert forall|b2: int, i2: int| 0 <= b2 < x + 1 implies !(#[trigger] self.slot_has(
                    b2,
                    i2,
                    kv,
                )) by {
                    if b2 == x {
                        if 0 <= i2 < self.BUCKET_SIZE {
                            assert(!self.slot_has(x as int, i2, kv));
                        }
                    }
                }
            }
            x = x + 1;
        }
        if !found {
            proof {
                if self.has_key(kv) {
                    let (b2, i2) = choose|b2: int, i2: int| #[trigger] self.slot_has(b2, i2, kv);
                    assert(false);
                }
            }
            return None;
        }
        proof {
            assert(self.slot_has(fb as int, fi as int, kv));
            self.lemma_count_at_slot(fb as int, fi as int, kv);
        }
        Some(&mut self.buckets[fb][fi].value)
    }

    /// The per-bucket occupancy bound, computed exactly.
    fn threshold_exec(&self) -> (t: usize)
        requires
            self.wf_config(),
        ensures
            t == self.threshold(),
    {
        let prod = (self.BUCKET_SIZE as u128) * (self.load_factor_num as u128);
        let q = prod / (self.load_factor_den as u128);
        proof {
            let s = self.BUCKET_SIZE as int;
            let num = self.load_factor_num as int;
            let den = self.load_factor_den as int;
            assert(s * num <= s * den) by (nonlinear_arith)
                requires
                    num <= den,
                    s >= 0,
            ;
            assert(s * num / den <= s * den / den) by (nonlinear_arith)
                requires
                    s * num <= s * den,
                    den >= 1,
            ;
            assert(s * den / den == s) by (nonlinear_arith)
                requires
                    den >= 1,
            ;
        }
        q as usize
    }

    /// Whether some bucket has reached its occupancy bound, in which case
    /// the table must grow before the next insert.
    #[verifier::loop_isolation(false)]
    fn any_bucket_at_threshold(&self) -> (r: bool)
        requires
            self.wf(),
        ensures
            !r ==> self.below_threshold(),
            r ==> !self.below_threshold(),
    {
        let th = self.threshold_exec();
        let mut x: usize = 0;
        while x < self.BUCKET_NUMBER
            invariant
                x <= self.BUCKET_NUMBER,
                forall|y: int| 0 <= y < x ==> (#[trigger] self.taken_count@[y]) < th,
                th == self.threshold(),
            decreases self.BUCKET_NUMBER - x,
        {
            if self.taken_count[x] >= th {
                proof {
                    assert(!self.below_threshold());
                }
                return true;
            }
            x = x + 1;
        }
        false
    }

    /// Grow the table once according to the growth policy and re-insert
    /// every occupied slot of the old table into the new one; every stored
    /// key keeps its aggregated count. The fuel bounds recursive rehashes.
    #[verifier::loop_isolation(false)]
    #[verifier::rlimit(100)]
    fn extend_fueled(&mut self, fuel: usize) -> (res: Result<(), CrustyError>)
        requires
            old(self).wf(),
            fuel >= 1,
        ensures
            final(self).wf(),
            final(self).same_config(*old(self)),
            final(self).BUCKET_SIZE >= old(self).BUCKET_SIZE,
            final(self).BUCKET_NUMBER >= old(self).BUCKET_NUMBER,
            res is Ok ==> final(self).unchanged_content(*old(self)),
            res is Ok ==> final(self).total_occupancy() == old(self).total_occupancy(),
            res is Ok ==> (old(self).extend_op is ExtendBucketSize ==> final(self).BUCKET_SIZE
                >= 2 * old(self).BUCKET_SIZE),
            res is Ok ==> (old(self).extend_op is ExtendBucketNumber ==> final(self).BUCKET_NUMBER >= 2 * old(self).BUCKET_NUMBER),
            old(self).extend_op is ExtendBucketSize ==> final(self).BUCKET_NUMBER == old(self).BUCKET_NUMBER,
            old(self).extend_op is ExtendBucketNumber ==> final(self).BUCKET_SIZE == old(self).BUCKET_SIZE,
            (old(self).scheme is LinearProbe || old(self).scheme is RobinHood) && old(self).can_grow() && old(self).total_occupancy() < old(self).grown_threshold() ==> res is Ok
                && final(self).BUCKET_SIZE == old(self).grown_size() && final(self).BUCKET_NUMBER == old(self).grown_number(),
            res is Err ==> *final(self) == *old(self),
        decreases fuel, 0int,
    {
        let ghost orig = *self;
        let ghost assured = (orig.scheme is LinearProbe || orig.scheme is RobinHood)
            && orig.can_grow() && orig.total_occupancy() < orig.grown_threshold();
        let (nb_size, nb_num) = match self.extend_op {
            ExtendOption::ExtendBucketSize => {
                if self.BUCKET_SIZE > usize::MAX / 2 {
                    return Err(CrustyError::ExecutionError("hash table exhausted".to_owned()));
                }
                (self.BUCKET_SIZE * 2, self.BUCKET_NUMBER)
            },
            ExtendOption::ExtendBucketNumber => {
                if self.BUCKET_NUMBER > usize::MAX / 2 {
                    return Err(CrustyError::ExecutionError("hash table exhausted".to_owned()));
                }
                (self.BUCKET_SIZE, self.BUCKET_NUMBER * 2)
            },
        };
        if nb_size > usize::MAX / self.load_factor_num {
            return Err(CrustyError::ExecutionError("hash table exhausted".to_owned()));
        }
        proof {
            let m = usize::MAX as int;
            let num = self.load_factor_num as int;
            assert(nb_size * num <= (m / num) * num) by (nonlinear_arith)
                requires
                    nb_size <= m / num,
                    num >= 1,
            ;
            assert((m / num) * num <= m) by (nonlinear_arith)
                requires
                    num >= 1,
                    m >= 0,
            ;
        }
        let mut new_table = Self::new(
            nb_size,
            nb_num,
            self.function,
            self.scheme,
            self.H,
            self.extend_op,
            self.load_factor_num,
            self.load_factor_den,
        );
        let ghost s = self.BUCKET_SIZE as int;
        let ghost bnum = self.BUCKET_NUMBER as int;
        proof {
            assert(self.bucket_seqs().take(0) =~= Seq::<Seq<HashNode>>::empty());
        }
        let mut bx: usize = 0;
        while bx < self.BUCKET_NUMBER
            invariant
                *self == orig,
                bx <= bnum,
                new_table.wf(),
                new_table.same_config(*self),
                new_table.BUCKET_SIZE >= nb_size,
                new_table.BUCKET_NUMBER >= nb_num,
                orig.extend_op is ExtendBucketSize ==> new_table.BUCKET_NUMBER == nb_num,
                orig.extend_op is ExtendBucketNumber ==> new_table.BUCKET_SIZE == nb_size,
                assured ==> new_table.BUCKET_SIZE == nb_size && new_table.BUCKET_NUMBER == nb_num,
                new_table.total_occupancy() == seqs_occ(self.bucket_seqs().take(bx as int)),
                forall|k2: KeyV| #[trigger] new_table.count_of(k2) == table_amt(
                    self.bucket_seqs().take(bx as int),
                    k2,
                ),
                forall|k2: KeyV| #[trigger] new_table.has_key(k2) == (exists|b2: int, i2: int|
                    b2 < bx && #[trigger] self.slot_has(b2, i2, k2)),
            decreases bnum - bx,
        {
            let mut sx: usize = 0;
            while sx < self.BUCKET_SIZE
                invariant
                    *self == orig,
                    bx < bnum,
                    sx <= s,
                    new_table.wf(),
                    new_table.same_config(*self),
                    new_table.BUCKET_SIZE >= nb_size,
                    new_table.BUCKET_NUMBER >= nb_num,
                    orig.extend_op is ExtendBucketSize ==> new_table.BUCKET_NUMBER == nb_num,
                    orig.extend_op is ExtendBucketNumber ==> new_table.BUCKET_SIZE == nb_size,
                    assured ==> new_table.BUCKET_SIZE == nb_size && new_table.BUCKET_NUMBER
                        == nb_num,
                    new_table.total_occupancy() == seqs_occ(self.bucket_seqs().take(bx as int))
                        + bucket_occ(self.buckets@[bx as int]@.take(sx as int)),
                    forall|k2: KeyV| #[trigger] new_table.count_of(k2) == table_amt(
                        self.bucket_seqs().take(bx as int),
                        k2,
                    ) + bucket_amt(self.buckets@[bx as int]@.take(sx as int), k2),
                    forall|k2: KeyV| #[trigger] new_table.has_key(k2) == (exists|b2: int, i2: int|
                        (b2 < bx || (b2 == bx && i2 < sx)) && #[trigger] self.slot_has(
                            b2,
                            i2,
                            k2,
                        )),
                decreases s - sx,
            {
                let ghost node = self.buckets@[bx as int]@[sx as int];
                let ghost prev = new_table;
                if self.buckets[bx][sx].taken {
                    let k0 = self.buckets[bx][sx].key.0.clone();
                    let k1 = self.buckets[bx][sx].key.1.clone();
                    let v = self.buckets[bx][sx].value;
                    proof {
                        assert(key_view(node.key) == key_view((k0, k1)));
                        // the source table's keys are unique, so this key was
                        // not in the already-copied prefix
                        if prev.has_key(key_view(node.key)) {
                            let (b2, i2) = choose|b2: int, i2: int|
                                (b2 < bx || (b2 == bx && i2 < sx)) && #[trigger] self.slot_has(
                                    b2,
                                    i2,
                                    key_view(node.key),
                                );
                            assert(self.slot_has(bx as int, sx as int, key_view(node.key)));
                            assert(false);
                        }
                        if assured {
                            // the fresh table is below its bound, because
                            // what was copied so far fits under the grown
                            // threshold, so this re-insert cannot fail
                            assert(self.bucket_seqs().take(bx + 1).drop_last()
                                =~= self.bucket_seqs().take(bx as int));
                            assert(self.bucket_seqs().take(bx + 1).last()
                                == self.buckets@[bx as int]@);
                            lemma_bucket_occ_take_le(self.buckets@[bx as int]@, sx as int);
                            lemma_seqs_occ_take_le(self.bucket_seqs(), bx + 1);
                            assert(prev.total_occupancy() <= orig.total_occupancy());
                            assert(prev.threshold() == orig.grown_threshold());
                            assert forall|b2: int|
                                0 <= b2 < prev.buckets@.len() implies (
                            #[trigger] prev.taken_count@[b2]) < prev.threshold() by {
                                prev.lemma_bucket_le_total(b2);
                            }
                            assert(prev.below_threshold());
                            assert(prev.fits_count(key_view((k0, k1)), v as nat));
                        }
                    }
                    match new_table.insert_fueled((k0, k1), v, fuel - 1) {
                        Ok(()) => {},
                        Err(er) => {
                            proof {
                                if assured {
                                    assert(false);
                                }
                            }
                            return Err(er);
                        },
                    }
                    proof {
                        assert(self.buckets@[bx as int]@.take(sx + 1).drop_last()
                            =~= self.buckets@[bx as int]@.take(sx as int));
                        assert(self.buckets@[bx as int]@.take(sx + 1).last() == node);
                        assert(bucket_occ(self.buckets@[bx as int]@.take(sx + 1)) == bucket_occ(
                            self.buckets@[bx as int]@.take(sx as int),
                        ) + 1);
                        assert(new_table.total_occupancy() == prev.total_occupancy() + 1);
                        assert forall|k2: KeyV| #[trigger] new_table.count_of(k2) == table_amt(
                            self.bucket_seqs().take(bx as int),
                            k2,
                        ) + bucket_amt(self.buckets@[bx as int]@.take(sx + 1), k2) by {
                            assert(self.buckets@[bx as int]@.take(sx + 1).drop_last()
                                =~= self.buckets@[bx as int]@.take(sx as int));
                            assert(self.buckets@[bx as int]@.take(sx + 1).last() == node);
                            assert(slot_amt(node, k2) == pend(key_view(node.key), v as nat, k2));
                            assert(new_table.count_of(k2) == prev.count_of(k2) + pend(
                                key_view(node.key),
                                v as nat,
                                k2,
                            ));
                        }
                        assert forall|k2: KeyV| #[trigger] new_table.has_key(k2) == (exists|
                            b2: int,
                            i2: int,
                        |
                            (b2 < bx || (b2 == bx && i2 < sx + 1)) && #[trigger] self.slot_has(
                                b2,
                                i2,
                                k2,
                            )) by {
                            if new_table.has_key(k2) {
                                if k2 == key_view(node.key) {
                                    assert(self.slot_has(bx as int, sx as int, k2));
                                } else {
                                    assert(prev.has_key(k2));
                                }
                            }
                            if exists|b2: int, i2: int|
                                (b2 < bx || (b2 == bx && i2 < sx + 1)) && #[trigger] self.slot_has(
                                    b2,
                                    i2,
                                    k2,
                                ) {
                                let (b2, i2) = choose|b2: int, i2: int|
                                    (b2 < bx || (b2 == bx && i2 < sx + 1))
                                        && #[trigger] self.slot_has(b2, i2, k2);
                                if b2 == bx && i2 == sx {
                                    assert(k2 == key_view(node.key));
                                    assert(new_table.has_key(k2));
                                } else {
                                    assert(b2 < bx || (b2 == bx && i2 < sx));
                                    assert(prev.has_key(k2));
                                    assert(new_table.has_key(k2));
                                }
                            }
                        }
                    }
                } else {
                    proof {
                        assert(self.buckets@[bx as int]@.take(sx + 1).drop_last()
                            =~= self.buckets@[bx as int]@.take(sx as int));
                        assert(self.buckets@[bx as int]@.take(sx + 1).last() == node);
                        assert(bucket_occ(self.buckets@[bx as int]@.take(sx + 1)) == bucket_occ(
                            self.buckets@[bx as int]@.take(sx as int),
                        ));
                        assert forall|k2: KeyV| #[trigger] new_table.count_of(k2) == table_amt(
                            self.bucket_seqs().take(bx as int),
                            k2,
                        ) + bucket_amt(self.buckets@[bx as int]@.take(sx + 1), k2) by {
                            assert(self.buckets@[bx as int]@.take(sx + 1).drop_last()
                                =~= self.buckets@[bx as int]@.take(sx as int));
                            assert(self.buckets@[bx as int]@.take(sx + 1).last() == node);
                            assert(slot_amt(node, k2) == 0);
                        }
                        assert forall|k2: KeyV| #[trigger] new_table.has_key(k2) == (exists|
                            b2: int,
                            i2: int,
                        |
                            (b2 < bx || (b2 == bx && i2 < sx + 1)) && #[trigger] self.slot_has(
                                b2,
                                i2,
                                k2,
                            )) by {
                            if exists|b2: int, i2: int|
                                (b2 < bx || (b2 == bx && i2 < sx + 1)) && #[trigger] self.slot_has(
                                    b2,
                                    i2,
                                    k2,
                                ) {
                                let (b2, i2) = choose|b2: int, i2: int|
                                    (b2 < bx || (b2 == bx && i2 < sx + 1))
                                        && #[trigger] self.slot_has(b2, i2, k2);
                                assert(!(b2 == bx && i2 == sx));
                                assert(b2 < bx || (b2 == bx && i2 < sx));
                            }
                        }
                    }
                }
                sx = sx + 1;
            }
            proof {
                assert(self.bucket_seqs().take(bx + 1).drop_last() =~= self.bucket_seqs().take(
                    bx as int,
                ));
                assert(self.bucket_seqs().take(bx + 1).last() == self.buckets@[bx as int]@);
                assert(self.buckets@[bx as int]@.take(s) =~= self.buckets@[bx as int]@);
                assert(seqs_occ(self.bucket_seqs().take(bx + 1)) == seqs_occ(
                    self.bucket_seqs().take(bx as int),
                ) + bucket_occ(self.buckets@[bx as int]@));
                assert forall|k2: KeyV| #[trigger] new_table.count_of(k2) == table_amt(
                    self.bucket_seqs().take(bx + 1),
                    k2,
                ) by {
                    assert(self.bucket_seqs().take(bx + 1).drop_last() =~= self.bucket_seqs().take(
                        bx as int,
                    ));
                    assert(self.bucket_seqs().take(bx + 1).last() == self.buckets@[bx as int]@);
                    assert(self.buckets@[bx as int]@.take(s) =~= self.buckets@[bx as int]@);
                }
                assert forall|k2: KeyV| #[trigger] new_table.has_key(k2) == (exists|
                    b2: int,
                    i2: int,
                |
                    b2 < bx + 1 && #[trigger] self.slot_has(b2, i2, k2)) by {
                    if exists|b2: int, i2: int| b2 < bx + 1 && #[trigger] self.slot_has(b2, i2, k2) {
                        let (b2, i2) = choose|b2: int, i2: int|
                            b2 < bx + 1 && #[trigger] self.slot_has(b2, i2, k2);
                        assert(b2 < bx || (b2 == bx && i2 < s));
                    }
                    if exists|b2: int, i2: int|
                        (b2 < bx || (b2 == bx && i2 < s)) && #[trigger] self.slot_has(b2, i2, k2) {
                        let (b2, i2) = choose|b2: int, i2: int|
                            (b2 < bx || (b2 == bx && i2 < s)) && #[trigger] self.slot_has(
                                b2,
                                i2,
                                k2,
                            );
                        assert(b2 < bx + 1 && self.slot_has(b2, i2, k2));
                    }
                }
            }
            bx = bx + 1;
        }
        proof {
            assert(self.bucket_seqs().take(bnum) =~= self.bucket_seqs());
            assert forall|k2: KeyV| #[trigger] new_table.has_key(k2) == self.has_key(k2) by {
                if self.has_key(k2) {
                    let (b2, i2) = choose|b2: int, i2: int| #[trigger] self.slot_has(b2, i2, k2);
                    assert(b2 < bnum && self.slot_has(b2, i2, k2));
                }
                if new_table.has_key(k2) {
                    let (b2, i2) = choose|b2: int, i2: int|
                        b2 < bnum && #[trigger] self.slot_has(b2, i2, k2);
                    assert(self.has_key(k2));
                }
            }
        }
        *self = new_table;
        Ok(())
    }

    /// Insert with a bound on how many times a rehash may cascade.
    fn insert_fueled(&mut self, new_key: (Field, Field), new_value: usize, fuel: usize) -> (res:
        Result<(), CrustyError>)
        requires
            old(self).wf(),
        ensures
            final(self).wf(),
            final(self).same_config(*old(self)),
            final(self).BUCKET_SIZE >= old(self).BUCKET_SIZE,
            final(self).BUCKET_NUMBER >= old(self).BUCKET_NUMBER,
            res is Ok ==> final(self).added(*old(self), key_view(new_key), new_value as nat),
            res is Ok ==> final(self).total_occupancy() == old(self).total_occupancy() + (if old(self).has_key(key_view(new_key)) {
                0nat
            } else {
                1nat
            }),
            res is Err ==> final(self).unchanged_content(*old(self)),
            res is Err ==> final(self).total_occupancy() == old(self).total_occupancy(),
            old(self).extend_op is ExtendBucketSize ==> final(self).BUCKET_NUMBER == old(self).BUCKET_NUMBER,
            old(self).extend_op is ExtendBucketNumber ==> final(self).BUCKET_SIZE == old(self).BUCKET_SIZE,
            !(old(self).scheme is Hopscotch) && old(self).below_threshold() && old(self).fits_count(key_view(new_key), new_value as nat) ==> res is Ok && final(self).same_geometry(*old(self)),
            old(self).below_threshold() && old(self).has_key(key_view(new_key)) && old(self).count_of(key_view(new_key)) + new_value <= usize::MAX ==> res is Ok && final(self).same_geometry(*old(self)),
            !(old(self).scheme is Hopscotch) && !old(self).below_threshold() && old(self).fits_count(key_view(new_key), new_value as nat) && old(self).can_grow() && old(self).total_occupancy() + 1 <= old(self).grown_threshold() && fuel >= 1 ==> res is Ok
                && final(self).BUCKET_SIZE == old(self).grown_size() && final(self).BUCKET_NUMBER == old(self).grown_number(),
        decreases fuel, 1int,
    {
        if self.any_bucket_at_threshold() {
            if fuel == 0 {
                return Err(CrustyError::ExecutionError("hash table exhausted".to_owned()));
            }
            let ghost pre_gate = *self;
            let ghost kv_gate = key_view(new_key);
            let ghost assured_gate = !(pre_gate.scheme is Hopscotch) && pre_gate.fits_count(
                kv_gate,
                new_value as nat,
            ) && pre_gate.can_grow() && pre_gate.total_occupancy() + 1
                <= pre_gate.grown_threshold();
            match self.extend_fueled(fuel) {
                Ok(()) => {},
                Err(er) => {
                    proof {
                        if assured_gate {
                            assert(false);
                        }
                    }
                    return Err(er);
                },
            }
            let ghost ext_gate = *self;
            proof {
                if assured_gate {
                    // after the single doubling every bucket is below the
                    // grown bound, so the retry cannot fail
                    assert(ext_gate.BUCKET_SIZE == pre_gate.grown_size());
                    assert(ext_gate.threshold() == pre_gate.grown_threshold());
                    assert(ext_gate.total_occupancy() == pre_gate.total_occupancy());
                    assert forall|b2: int|
                        0 <= b2 < ext_gate.buckets@.len() implies (
                    #[trigger] ext_gate.taken_count@[b2]) < ext_gate.threshold() by {
                        ext_gate.lemma_bucket_le_total(b2);
                    }
                    assert(ext_gate.below_threshold());
                    assert(ext_gate.fits_count(kv_gate, new_value as nat));
                }
            }
            let res_gate = self.insert_fueled(new_key, new_value, fuel - 1);
            proof {
                assert(ext_gate.has_key(key_view(new_key)) == pre_gate.has_key(
                    key_view(new_key),
                ));
                if res_gate is Ok {
                    assert forall|q: KeyV| #[trigger] self.count_of(q) == pre_gate.count_of(q)
                        + pend(key_view(new_key), new_value as nat, q) by {
                        assert(self.count_of(q) == ext_gate.count_of(q) + pend(
                            key_view(new_key),
                            new_value as nat,
                            q,
                        ));
                    }
                    assert forall|q: KeyV| #[trigger] self.has_key(q) == (pre_gate.has_key(q) || q
                        == key_view(new_key)) by {
                        assert(self.has_key(q) == (ext_gate.has_key(q) || q == key_view(new_key)));
                    }
                } else {
                    assert forall|q: KeyV| #[trigger] self.count_of(q) == pre_gate.count_of(q)
                        && self.has_key(q) == pre_gate.has_key(q) by {
                        assert(self.count_of(q) == ext_gate.count_of(q));
                        assert(self.has_key(q) == ext_gate.has_key(q));
                    }
                }
            }
            return res_gate;
        }
        let ghost orig = *self;
        let h = key_hash((&new_key.0, &new_key.1), self.function);
        let lo = h % 0x1_0000_0000;
        let bidx = (lo as usize) % self.BUCKET_NUMBER;
        let is_hop = self.scheme == HashScheme::Hopscotch;
        if !is_hop {
            match self.place_probe(new_key, new_value, bidx) {
                Ok(()) => Ok(()),
                Err(er) => Err(er),
            }
        } else {
            let ghost keyv = key_view(new_key);
            match self.place_hopscotch(new_key, new_value, bidx) {
                Ok(PlaceOutcome::Done) => Ok(()),
                Ok(PlaceOutcome::Leftover(k2, c2)) => {
                    if fuel == 0 {
                        return Err(
                            CrustyError::ExecutionError("hash table exhausted".to_owned()),
                        );
                    }
                    let ghost mid = *self;
                    match self.extend_fueled(fuel) {
                        Ok(()) => {},
                        Err(er) => {
                            proof {
                                assert forall|q: KeyV| #[trigger] self.count_of(q)
                                    == orig.count_of(q) && self.has_key(q) == orig.has_key(q) by {
                                    assert(self.count_of(q) == mid.count_of(q));
                                    assert(mid.count_of(q) == orig.count_of(q));
                                    assert(self.has_key(q) == mid.has_key(q));
                                    assert(mid.has_key(q) == orig.has_key(q));
                                }
                            }
                            return Err(er);
                        },
                    }
                    let ghost ext = *self;
                    proof {
                        assert forall|q: KeyV| #[trigger] ext.count_of(q) == orig.count_of(q)
                            && ext.has_key(q) == orig.has_key(q) by {
                            assert(ext.count_of(q) == mid.count_of(q));
                            assert(mid.count_of(q) == orig.count_of(q));
                            assert(ext.has_key(q) == mid.has_key(q));
                            assert(mid.has_key(q) == orig.has_key(q));
                        }
                    }
                    let res2 = self.insert_fueled(k2, c2, fuel - 1);
                    proof {
                        assert(ext.has_key(keyv) == mid.has_key(keyv));
                        assert(!mid.has_key(keyv));
                        assert(mid.total_occupancy() == orig.total_occupancy());
                        if res2 is Ok {
                            assert forall|q: KeyV| #[trigger] self.count_of(q) == orig.count_of(q)
                                + pend(keyv, new_value as nat, q) by {
                                assert(self.count_of(q) == ext.count_of(q) + pend(
                                    keyv,
                                    c2 as nat,
                                    q,
                                ));
                            }
                            assert forall|q: KeyV| #[trigger] self.has_key(q) == (orig.has_key(q)
                                || q == keyv) by {
                                assert(self.has_key(q) == (ext.has_key(q) || q == keyv));
                            }
                        } else {
                            assert forall|q: KeyV| #[trigger] self.count_of(q) == orig.count_of(q)
                                && self.has_key(q) == orig.has_key(q) by {
                                assert(self.count_of(q) == ext.count_of(q));
                                assert(self.has_key(q) == ext.has_key(q));
                            }
                        }
                    }
                    res2
                },
                Err(er) => Err(er),
            }
        }
    }

    /// Insert a key with a count; an equal key aggregates the counts. The
    /// load-factor gate is checked first, and overflow of a probe triggers a
    /// rehash; a rehash cascade deeper than the cap fails with a table
    /// exhaustion error that leaves the stored contents unchanged. The
    /// insert succeeds whenever every bucket is below its bound and the
    /// aggregated count fits (under linear probing and Robin Hood, or under
    /// any scheme when the key is already stored), and across one exact
    /// doubling when the whole table fits under the grown bound.
    pub fn insert(&mut self, new_key: (Field, Field), new_value: usize) -> (res: Result<
        (),
        CrustyError,
    >)
        requires
            old(self).wf(),
        ensures
            final(self).wf(),
            final(self).same_config(*old(self)),
            final(self).BUCKET_SIZE >= old(self).BUCKET_SIZE,
            final(self).BUCKET_NUMBER >= old(self).BUCKET_NUMBER,
            res is Ok ==> final(self).added(*old(self), key_view(new_key), new_value as nat),
            res is Ok ==> final(self).total_occupancy() == old(self).total_occupancy() + (if old(self).has_key(key_view(new_key)) {
                0nat
            } else {
                1nat
            }),
            res is Err ==> final(self).unchanged_content(*old(self)),
            res is Err ==> final(self).total_occupancy() == old(self).total_occupancy(),
            old(self).extend_op is ExtendBucketSize ==> final(self).BUCKET_NUMBER == old(self).BUCKET_NUMBER,
            old(self).extend_op is ExtendBucketNumber ==> final(self).BUCKET_SIZE == old(self).BUCKET_SIZE,
            !(old(self).scheme is Hopscotch) && old(self).below_threshold() && old(self).fits_count(key_view(new_key), new_value as nat) ==> res is Ok && final(self).same_geometry(*old(self)),
            old(self).below_threshold() && old(self).has_key(key_view(new_key)) && old(self).count_of(key_view(new_key)) + new_value <= usize::MAX ==> res is Ok && final(self).same_geometry(*old(self)),
            !(old(self).scheme is Hopscotch) && !old(self).below_threshold() && old(self).fits_count(key_view(new_key), new_value as nat) && old(self).can_grow() && old(self).total_occupancy() + 1 <= old(self).grown_threshold() ==> res is Ok
                && final(self).BUCKET_SIZE == old(self).grown_size() && final(self).BUCKET_NUMBER == old(self).grown_number(),
    {
        self.insert_fueled(new_key, new_value, 8)
    }

    /// Rehash: grow the table once per the growth policy, re-inserting all
    /// occupied slots; every stored key keeps its aggregated count, the
    /// total occupancy is unchanged, and the other dimension never moves.
    /// Under linear probing and Robin Hood the rehash succeeds with one
    /// exact doubling whenever the occupants fit under the grown bound.
    pub fn extend(&mut self) -> (res: Result<(), CrustyError>)
        requires
            old(self).wf(),
        ensures
            final(self).wf(),
            final(self).same_config(*old(self)),
            res is Ok ==> final(self).unchanged_content(*old(self)),
            res is Ok ==> final(self).total_occupancy() == old(self).total_occupancy(),
            res is Ok ==> (old(self).extend_op is ExtendBucketSize ==> final(self).BUCKET_SIZE
                >= 2 * old(self).BUCKET_SIZE),
            res is Ok ==> (old(self).extend_op is ExtendBucketNumber ==> final(self).BUCKET_NUMBER >= 2 * old(self).BUCKET_NUMBER),
            old(self).extend_op is ExtendBucketSize ==> final(self).BUCKET_NUMBER == old(self).BUCKET_NUMBER,
            old(self).extend_op is ExtendBucketNumber ==> final(self).BUCKET_SIZE == old(self).BUCKET_SIZE,
            (old(self).scheme is LinearProbe || old(self).scheme is RobinHood) && old(self).can_grow() && old(self).total_occupancy() < old(self).grown_threshold() ==> res is Ok
                && final(self).BUCKET_SIZE == old(self).grown_size() && final(self).BUCKET_NUMBER == old(self).grown_number(),
            res is Err ==> *final(self) == *old(self),
    {
        self.extend_fueled(8)
    }

    /// The bucket a key belongs to, or nothing when that bucket is already
    /// full.
    pub fn get_bucket_index(&self, key: (&Field, &Field)) -> (r: Option<usize>)
        requires
            self.wf(),
        ensures
            ({
                let b = spec_home_bucket(
                    (key.0@, key.1@),
                    self.function,
                    self.BUCKET_NUMBER as int,
                );
                match r {
                    Some(bi) => bi == b && self.taken_count@[b] < self.BUCKET_SIZE,
                    None => self.taken_count@[b] >= self.BUCKET_SIZE,
                }
            }),
    {
        let h = key_hash(key, self.function);
        let lo = h % 0x1_0000_0000;
        assert(lo < 0x1_0000_0000u64);
        let bucket_index = (lo as usize) % self.BUCKET_NUMBER;
        if self.taken_count[bucket_index] >= self.BUCKET_SIZE {
            None
        } else {
            Some(bucket_index)
        }
    }

    /// Use linear probing to resolve a collision: walk forward from `index`
    /// and stop at the first free slot or at the probe key; after a full
    /// cycle with no stop, report failure.
    pub fn linear_probe(&self, key: (&Field, &Field), target_bucket_index: usize, index: usize) -> (r:
        Option<usize>)
        requires
            self.wf(),
            target_bucket_index < self.BUCKET_NUMBER,
            index < self.BUCKET_SIZE,
        ensures
            ({
                let bucket = self.buckets@[target_bucket_index as int]@;
                let s = self.BUCKET_SIZE as int;
                let k = (key.0@, key.1@);
                match r {
                    Some(i) => exists|d: int|
                        0 <= d < s && i == walk_pos(index as int, d, s) && lp_stop(bucket, k, i as int)
                            && (forall|t: int|
                            0 <= t < d ==> !lp_stop(bucket, k, walk_pos(index as int, t, s))),
                    None => forall|t: int|
                        0 <= t < s ==> !lp_stop(bucket, k, walk_pos(index as int, t, s)),
                }
            }),
    {
        match self.probe_linear(key, target_bucket_index, index) {
            Some((i, d)) => Some(i),
            None => None,
        }
    }

    fn probe_linear(&self, key: (&Field, &Field), b: usize, start: usize) -> (r: Option<
        (usize, usize)>)
        requires
            self.wf(),
            b < self.BUCKET_NUMBER,
            start < self.BUCKET_SIZE,
        ensures
            ({
                let bucket = self.buckets@[b as int]@;
                let s = self.BUCKET_SIZE as int;
                let k = (key.0@, key.1@);
                match r {
                    Some((i, d)) => {
                        &&& d < s
                        &&& i < s
                        &&& i == walk_pos(start as int, d as int, s)
                        &&& lp_stop(bucket, k, i as int)
                        &&& forall|t: int|
                            0 <= t < d ==> !lp_stop(bucket, k, walk_pos(start as int, t, s))
                    },
                    None => forall|t: int|
                        0 <= t < s ==> !lp_stop(bucket, k, walk_pos(start as int, t, s)),
                }
            }),
    {
        let ghost bucket = self.buckets@[b as int]@;
        let ghost s = self.BUCKET_SIZE as int;
        let ghost k = (key.0@, key.1@);
        let mut i: usize = start;
        let mut d: usize = 0;
        proof {
            vstd::arithmetic::div_mod::lemma_small_mod(start as nat, self.BUCKET_SIZE as nat);
        }
        while d < self.BUCKET_SIZE
            invariant
                self.wf(),
                b < self.BUCKET_NUMBER,
                start < self.BUCKET_SIZE,
                bucket == self.buckets@[b as int]@,
                s == self.BUCKET_SIZE as int,
                k == (key.0@, key.1@),
                d <= self.BUCKET_SIZE,
                i < self.BUCKET_SIZE,
                i == walk_pos(start as int, d as int, s),
                forall|t: int| 0 <= t < d ==> !lp_stop(bucket, k, walk_pos(start as int, t, s)),
            decreases self.BUCKET_SIZE - d,
        {
            let node = &self.buckets[b][i];
            if !node.taken {
                return Some((i, d));
            }
            if keys_eq(key, &node.key) {
                return Some((i, d));
            }
            proof {
                assert(!lp_stop(bucket, k, walk_pos(start as int, d as int, s)));
                lemma_walk_step(start as int, d as int, s);
            }
            i = (i + 1) % self.BUCKET_SIZE;
            d = d + 1;
        }
        None
    }

    /// Use Robin Hood probing to resolve a collision: walk as linear probing
    /// does, but also stop once the walk is further from home than the
    /// occupant it meets; report the stop slot and the walk distance.
    pub fn robin_hood(&self, key: (&Field, &Field), bucket_index: usize, ori_index: usize) -> (r:
        Option<(usize, usize)>)
        requires
            self.wf(),
            bucket_index < self.BUCKET_NUMBER,
            ori_index < self.BUCKET_SIZE,
        ensures
            ({
                let bucket = self.buckets@[bucket_index as int]@;
                let s = self.BUCKET_SIZE as int;
                let k = (key.0@, key.1@);
                match r {
                    Some((i, d)) => {
                        &&& d < s
                        &&& i < s
                        &&& i == walk_pos(ori_index as int, d as int, s)
                        &&& rh_stop(bucket, k, i as int, d as int)
                        &&& forall|t: int|
                            0 <= t < d ==> !rh_stop(bucket, k, walk_pos(ori_index as int, t, s), t)
                    },
                    None => forall|t: int|
                        0 <= t < s ==> !rh_stop(bucket, k, walk_pos(ori_index as int, t, s), t),
                }
            }),
    {
        let ghost bucket = self.buckets@[bucket_index as int]@;
        let ghost s = self.BUCKET_SIZE as int;
        let ghost k = (key.0@, key.1@);
        let mut i: usize = ori_index;
        let mut d: usize = 0;
        proof {
            vstd::arithmetic::div_mod::lemma_small_mod(ori_index as nat, self.BUCKET_SIZE as nat);
        }
        while d < self.BUCKET_SIZE
            invariant
                self.wf(),
                bucket_index < self.BUCKET_NUMBER,
                ori_index < self.BUCKET_SIZE,
                bucket == self.buckets@[bucket_index as int]@,
                s == self.BUCKET_SIZE as int,
                k == (key.0@, key.1@),
                d <= self.BUCKET_SIZE,
                i < self.BUCKET_SIZE,
                i == walk_pos(ori_index as int, d as int, s),
                forall|t: int|
                    0 <= t < d ==> !rh_stop(bucket, k, walk_pos(ori_index as int, t, s), t),
            decreases self.BUCKET_SIZE - d,
        {
            let node = &self.buckets[bucket_index][i];
            if !node.taken {
                return Some((i, d));
            }
            if keys_eq(key, &node.key) {
                return Some((i, d));
            }
            if d > node.dis {
                return Some((i, d));
            }
            proof {
                assert(!rh_stop(bucket, k, walk_pos(ori_index as int, d as int, s), d as int));
                lemma_walk_step(ori_index as int, d as int, s);
            }
            i = (i + 1) % self.BUCKET_SIZE;
            d = d + 1;
        }
        None
    }

    /// The home slot of a key within its bucket.
    fn home_slot(&self, key: (&Field, &Field)) -> (s: usize)
        requires
            self.wf_config(),
        ensures
            s == spec_home_slot((key.0@, key.1@), self.function, self.BUCKET_SIZE as int),
            s < self.BUCKET_SIZE,
    {
        let h = key_hash(key, self.function);
        let hi = h / 0x1_0000_0000;
        assert(hi < 0x1_0000_0000u64) by (nonlinear_arith)
            requires hi == h / 0x1_0000_0000u64, h <= u64::MAX;
        (hi as usize) % self.BUCKET_SIZE
    }
}

impl Default for HashTable {
    /// The degenerate empty table that the iterator lifecycle resets to.
    fn default() -> (r: HashTable)
        ensures
            r.buckets@.len() == 0,
            r.taken_count@.len() == 0,
            r.hop_info@.len() == 0,
            r.BUCKET_NUMBER == 0,
            r.BUCKET_SIZE == 0,
            r.function == HashFunction::StdHash,
            r.scheme == HashScheme::LinearProbe,
            r.H == 4,
            r.extend_op == ExtendOption::ExtendBucketSize,
            r.load_factor_num == 9,
            r.load_factor_den == 10,
    {
        HashTable {
            buckets: Vec::new(),
            taken_count: Vec::new(),
            BUCKET_NUMBER: 0,
            BUCKET_SIZE: 0,
            function: HashFunction::StdHash,
            scheme: HashScheme::LinearProbe,
            H: 4,
            extend_op: ExtendOption::ExtendBucketSize,
            hop_info: Vec::new(),
            load_factor_num: 9,
            load_factor_den: 10,
        }
    }
}

impl HashTable {
    /// Count conservation: successive inserts of one key raise its stored
    /// count by the sum of the inserted counts, and leave the key present.
    pub proof fn lemma_count_conservation(
        t0: HashTable,
        t1: HashTable,
        t2: HashTable,
        k: KeyV,
        v1: nat,
        v2: nat,
    )
        requires
            t1.added(t0, k, v1),
            t2.added(t1, k, v2),
        ensures
            t2.count_of(k) == t0.count_of(k) + v1 + v2,
            t2.has_key(k),
    {
    }

    /// No phantom keys: an insert of one key neither creates nor recounts
    /// any other key.
    pub proof fn lemma_no_phantom_key(t0: HashTable, t1: HashTable, k: KeyV, v: nat, other: KeyV)
        requires
            t1.added(t0, k, v),
            other != k,
        ensures
            t1.count_of(other) == t0.count_of(other),
            t1.has_key(other) == t0.has_key(other),
    {
    }

    /// A key no occupied slot holds stores a count of zero.
    pub proof fn lemma_absent_key_zero(self, k: KeyV)
        requires
            !self.has_key(k),
        ensures
            self.count_of(k) == 0,
    {
        let bs = self.bucket_seqs();
        assert forall|b2: int, j: int|
            0 <= b2 < bs.len() && 0 <= j < bs[b2].len() implies slot_amt(#[trigger] bs[b2][j], k)
            == 0 by {
            if bs[b2][j].taken && key_view(bs[b2][j].key) == k {
                assert(self.slot_has(b2, j, k));
                assert(false);
            }
        }
        lemma_table_amt_all_none_helper(bs, k);
    }

    /// Robin Hood run law: an occupant is at most one probe step more
    /// displaced than the occupant in the slot before it, so occupants'
    /// home slots never decrease along a run of occupied slots.
    pub proof fn lemma_robin_hood_monotonic(self, b: int, j: int)
        requires
            self.wf(),
            self.scheme is RobinHood,
            0 <= b < self.BUCKET_NUMBER,
            0 <= j < self.BUCKET_SIZE,
            self.buckets@[b]@[j].taken,
            self.buckets@[b]@[(j + 1) % (self.BUCKET_SIZE as int)].taken,
        ensures
            self.buckets@[b]@[(j + 1) % (self.BUCKET_SIZE as int)].dis <= self.buckets@[b]@[j].dis
                + 1,
    {
        let s = self.BUCKET_SIZE as int;
        let j2 = (j + 1) % s;
        vstd::arithmetic::div_mod::lemma_mod_bound(j + 1, s);
        let n2 = self.buckets@[b]@[j2];
        if n2.dis >= 1 {
            assert(self.probe_path_ok(b, j2));
            let h2 = spec_home_slot(key_view(n2.key), self.function, s);
            vstd::arithmetic::div_mod::lemma_mod_bound(
                spec_key_hash(key_view(n2.key), self.function) / 0x1_0000_0000,
                s,
            );
            assert(j2 == walk_pos(h2, n2.dis as int, s));
            lemma_walk_step(h2, n2.dis - 1, s);
            let x = walk_pos(h2, n2.dis - 1, s);
            vstd::arithmetic::div_mod::lemma_mod_bound(h2 + n2.dis - 1, s);
            assert(j2 == (x + 1) % s);
            if x == s - 1 {
                vstd::arithmetic::div_mod::lemma_mod_add_multiples_vanish(0, s);
                assert(j2 == 0);
                if j + 1 < s {
                    vstd::arithmetic::div_mod::lemma_small_mod((j + 1) as nat, s as nat);
                    assert(false);
                }
                assert(j == s - 1);
            } else {
                vstd::arithmetic::div_mod::lemma_small_mod((x + 1) as nat, s as nat);
                assert(j2 == x + 1);
                if j + 1 < s {
                    vstd::arithmetic::div_mod::lemma_small_mod((j + 1) as nat, s as nat);
                } else {
                    vstd::arithmetic::div_mod::lemma_mod_add_multiples_vanish(0, s);
                    assert(j2 == 0);
                    assert(false);
                }
            }
            assert(x == j);
            assert(self.buckets@[b]@[walk_pos(h2, n2.dis - 1, s)].dis >= n2.dis - 1);
        }
    }

    /// Hopscotch neighborhood law: every occupant lies in the H-slot window
    /// of its home slot, the home's bitmap bit for it is set, and no other
    /// slot's bitmap claims it.
    pub proof fn lemma_hopscotch_neighborhood(self, b: int, j: int)
        requires
            self.wf(),
            self.scheme is Hopscotch,
            0 <= b < self.BUCKET_NUMBER,
            0 <= j < self.BUCKET_SIZE,
            self.buckets@[b]@[j].taken,
        ensures
            ({
                let s = self.BUCKET_SIZE as int;
                let h = spec_home_slot(key_view(self.buckets@[b]@[j].key), self.function, s);
                &&& h <= j < h + self.H
                &&& self.buckets@[b]@[j].dis == j - h
                &&& hop_bit(self.hop_info@[b]@[h], j - h, self.H as int)
                &&& forall|h2: int|
                    0 <= h2 < s && h2 != h && 0 <= j - h2 < self.H ==> !hop_bit(
                        #[trigger] self.hop_info@[b]@[h2],
                        j - h2,
                        self.H as int,
                    )
            }),
    {
        let s = self.BUCKET_SIZE as int;
        assert(self.hop_window_ok(b, j));
        let h = spec_home_slot(key_view(self.buckets@[b]@[j].key), self.function, s);
        assert(self.hop_bits_ok(b, h, j - h));
        assert forall|h2: int|
            0 <= h2 < s && h2 != h && 0 <= j - h2 < self.H implies !hop_bit(
            #[trigger] self.hop_info@[b]@[h2],
            j - h2,
            self.H as int,
        ) by {
            assert(self.hop_bits_ok(b, h2, j - h2));
        }
    }
}

} // verus!
