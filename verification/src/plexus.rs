//! On-disk format of the boot image filesystem and its builder.
//!
//! Every on-disk record is exactly one 512-byte sector, all integers stored
//! little-endian. Sector 0 is the head (super block): version, the magic
//! bytes `head`, and the FAT and DAT extents. The FAT holds one inode per
//! sector, its first being the apex (root, named `/`); the DAT holds the
//! sector-aligned file payloads.

use vstd::prelude::*;

verus! {

/// Fixed on-disk unit, in bytes.
pub const SECTOR_SIZE: usize = 512;

/// Bytes of the head's magic field.
pub const HEAD_MAGIC_SIZE: usize = 4;

/// Zero bytes filling the head sector after its fields.
pub const HEAD_PADDING_SIZE: usize = 490;

/// Default size of the data area, in sectors.
pub const HEAD_DAT_MAX_SIZE: u32 = 10000;

/// Bytes of an inode's name field.
pub const INODE_NAME_SIZE: usize = 64;

/// Entries of an inode's front link table (children).
pub const INODE_FLT_SIZE: usize = 50;

/// Entries of an inode's back link table (parents).
pub const INODE_BLT_SIZE: usize = 50;

/// Entries of an inode's fragment table.
pub const INODE_FRAGS_SIZE: usize = 6;

/// An inclusive range of disk sectors.
#[derive(Clone, Copy, PartialEq, Eq, Structural, Debug)]
pub struct Chunk {
    pub start: u32,
    pub end: u32,
}

impl Chunk {
    /// The null chunk, meaning "no sectors".
    pub fn null() -> (c: Self)
        ensures
            c == (Chunk { start: 0u32, end: 0u32 }),
    {
        Chunk { start: 0, end: 0 }
    }

    /// A chunk covering sectors `start` through `end`, inclusive.
    pub fn new(start: u32, end: u32) -> (c: Self)
        ensures
            c == (Chunk { start, end }),
    {
        Chunk { start, end }
    }
}

/// The super block: format version and the FAT and DAT extents. The magic
/// bytes and the zero padding exist only on disk, in [`head_bytes`].
#[derive(Clone, Copy, PartialEq, Eq, Structural, Debug)]
pub struct Head {
    pub version: u16,
    pub fat: Chunk,
    pub dat: Chunk,
}

/// A `u16` as its two little-endian bytes.
pub open spec fn u16_le(v: u16) -> Seq<u8> {
    seq![(v & 0xff) as u8, ((v >> 8) & 0xff) as u8]
}

/// A `u32` as its four little-endian bytes.
pub open spec fn u32_le(v: u32) -> Seq<u8> {
    seq![
        (v & 0xff) as u8,
        ((v >> 8) & 0xff) as u8,
        ((v >> 16) & 0xff) as u8,
        ((v >> 24) & 0xff) as u8,
    ]
}

/// A chunk as eight bytes: start, then end.
pub open spec fn chunk_le(c: Chunk) -> Seq<u8> {
    u32_le(c.start) + u32_le(c.end)
}

/// `n` zero bytes.
pub open spec fn zeros(n: nat) -> Seq<u8> {
    Seq::new(n, |i: int| 0u8)
}

/// A word table as its little-endian bytes, in order.
pub open spec fn words_le(s: Seq<u32>) -> Seq<u8>
    decreases s.len(),
{
    if s.len() == 0 {
        Seq::empty()
    } else {
        u32_le(s[0]) + words_le(s.drop_first())
    }
}

/// A chunk table as its bytes, in order.
pub open spec fn chunks_le(s: Seq<Chunk>) -> Seq<u8>
    decreases s.len(),
{
    if s.len() == 0 {
        Seq::empty()
    } else {
        chunk_le(s[0]) + chunks_le(s.drop_first())
    }
}

/// The head sector: version, the magic bytes `h` `e` `a` `d`, the FAT and
/// DAT extents, zero padding to fill the sector.
pub open spec fn head_bytes(h: Head) -> Seq<u8> {
    u16_le(h.version) + seq![104u8, 101u8, 97u8, 100u8] + chunk_le(h.fat) + chunk_le(h.dat)
        + zeros(HEAD_PADDING_SIZE as nat)
}

/// One inode record: a zero-padded name, the front and back link tables
/// (sector indices of children and parents), and the data fragments.
pub struct Inode {
    pub name: Vec<u8>,
    pub flt: Vec<u32>,
    pub blt: Vec<u32>,
    pub frags: Vec<Chunk>,
}

impl Inode {
    /// The tables have their fixed on-disk lengths.
    pub open spec fn wf(&self) -> bool {
        &&& self.name@.len() == INODE_NAME_SIZE
        &&& self.flt@.len() == INODE_FLT_SIZE
        &&& self.blt@.len() == INODE_BLT_SIZE
        &&& self.frags@.len() == INODE_FRAGS_SIZE
    }

    /// The inode's sector: name, front links, back links, fragments.
    pub open spec fn bytes(&self) -> Seq<u8> {
        self.name@ + words_le(self.flt@) + words_le(self.blt@) + chunks_le(self.frags@)
    }

    /// A fresh inode: the given name zero-padded, no links, no fragments.
    pub fn new(name: &[u8]) -> (ino: Self)
        requires
            name@.len() <= INODE_NAME_SIZE,
        ensures
            ino.wf(),
            ino.name@ == name@ + zeros((INODE_NAME_SIZE - name@.len()) as nat),
            ino.flt@ == zero_words(INODE_FLT_SIZE as nat),
            ino.blt@ == zero_words(INODE_BLT_SIZE as nat),
            ino.frags@ == null_chunks(INODE_FRAGS_SIZE as nat),
    {
        let mut nm: Vec<u8> = Vec::new();
        let mut i: usize = 0;
        while i < name.len()
            invariant
                i <= name@.len(),
                nm@ == name@.take(i as int),
            decreases name@.len() - i,
        {
            nm.push(name[i]);
            i = i + 1;
            proof {
                assert(nm@ =~= name@.take(i as int));
            }
        }
        proof {
            assert(name@.take(name@.len() as int) =~= name@);
        }
        while i < INODE_NAME_SIZE
            invariant
                name@.len() <= i <= INODE_NAME_SIZE,
                nm@ == name@ + zeros((i - name@.len()) as nat),
            decreases INODE_NAME_SIZE - i,
        {
            nm.push(0);
            i = i + 1;
            proof {
                assert(nm@ =~= name@ + zeros((i - name@.len()) as nat));
            }
        }
        let mut flt: Vec<u32> = Vec::new();
        let mut j: usize = 0;
        while j < INODE_FLT_SIZE
            invariant
                j <= INODE_FLT_SIZE,
                flt@ == zero_words(j as nat),
            decreases INODE_FLT_SIZE - j,
        {
            flt.push(0);
            j = j + 1;
            proof {
                assert(flt@ =~= zero_words(j as nat));
            }
        }
        let mut blt: Vec<u32> = Vec::new();
        let mut k: usize = 0;
        while k < INODE_BLT_SIZE
            invariant
                k <= INODE_BLT_SIZE,
                blt@ == zero_words(k as nat),
            decreases INODE_BLT_SIZE - k,
        {
            blt.push(0);
            k = k + 1;
            proof {
                assert(blt@ =~= zero_words(k as nat));
            }
        }
        let mut frags: Vec<Chunk> = Vec::new();
        let mut m: usize = 0;
        while m < INODE_FRAGS_SIZE
            invariant
                m <= INODE_FRAGS_SIZE,
                frags@ == null_chunks(m as nat),
            decreases INODE_FRAGS_SIZE - m,
        {
            frags.push(Chunk::null());
            m = m + 1;
            proof {
                assert(frags@ =~= null_chunks(m as nat));
            }
        }
        Inode { name: nm, flt, blt, frags }
    }
}

/// `n` zero words.
pub open spec fn zero_words(n: nat) -> Seq<u32> {
    Seq::new(n, |i: int| 0u32)
}

/// `n` null chunks.
pub open spec fn null_chunks(n: nat) -> Seq<Chunk> {
    Seq::new(n, |i: int| Chunk { start: 0u32, end: 0u32 })
}

/// A word table's bytes take four bytes per word.
pub proof fn lemma_words_le_len(s: Seq<u32>)
    ensures
        words_le(s).len() == 4 * s.len(),
    decreases s.len(),
{
    if s.len() > 0 {
        lemma_words_le_len(s.drop_first());
    }
}

/// A chunk table's bytes take eight bytes per chunk.
pub proof fn lemma_chunks_le_len(s: Seq<Chunk>)
    ensures
        chunks_le(s).len() == 8 * s.len(),
    decreases s.len(),
{
    if s.len() > 0 {
        lemma_chunks_le_len(s.drop_first());
    }
}

/// A head sector is exactly one sector long.
pub proof fn lemma_head_bytes_len(h: Head)
    ensures
        head_bytes(h).len() == SECTOR_SIZE,
{
}

/// A well-formed inode's record is exactly one sector long.
pub proof fn lemma_inode_bytes_len(ino: &Inode)
    requires
        ino.wf(),
    ensures
        ino.bytes().len() == SECTOR_SIZE,
{
    lemma_words_le_len(ino.flt@);
    lemma_words_le_len(ino.blt@);
    lemma_chunks_le_len(ino.frags@);
}

/// Appending a word appends its four bytes.
proof fn lemma_words_le_snoc(s: Seq<u32>, x: u32)
    ensures
        words_le(s.push(x)) == words_le(s) + u32_le(x),
    decreases s.len(),
{
    if s.len() == 0 {
        assert(s.push(x).drop_first() =~= s);
        assert(words_le(s.push(x)) =~= words_le(s) + u32_le(x));
    } else {
        assert(s.push(x).drop_first() =~= s.drop_first().push(x));
        lemma_words_le_snoc(s.drop_first(), x);
        assert(words_le(s.push(x)) =~= words_le(s) + u32_le(x));
    }
}

/// Appending a chunk appends its eight bytes.
proof fn lemma_chunks_le_snoc(s: Seq<Chunk>, x: Chunk)
    ensures
        chunks_le(s.push(x)) == chunks_le(s) + chunk_le(x),
    decreases s.len(),
{
    if s.len() == 0 {
        assert(s.push(x).drop_first() =~= s);
        assert(chunks_le(s.push(x)) =~= chunks_le(s) + chunk_le(x));
    } else {
        assert(s.push(x).drop_first() =~= s.drop_first().push(x));
        lemma_chunks_le_snoc(s.drop_first(), x);
        assert(chunks_le(s.push(x)) =~= chunks_le(s) + chunk_le(x));
    }
}

/// Append a `u16` to `out`, little-endian.
fn push_u16_le(out: &mut Vec<u8>, v: u16)
    ensures
        final(out)@ == old(out)@ + u16_le(v),
{
    out.push((v & 0xff) as u8);
    out.push(((v >> 8) & 0xff) as u8);
    proof {
        assert(out@ =~= old(out)@ + u16_le(v));
    }
}

/// Append a `u32` to `out`, little-endian.
fn push_u32_le(out: &mut Vec<u8>, v: u32)
    ensures
        final(out)@ == old(out)@ + u32_le(v),
{
    out.push((v & 0xff) as u8);
    out.push(((v >> 8) & 0xff) as u8);
    out.push(((v >> 16) & 0xff) as u8);
    out.push(((v >> 24) & 0xff) as u8);
    proof {
        assert(out@ =~= old(out)@ + u32_le(v));
    }
}

/// Append a chunk to `out`: start, then end.
fn push_chunk_le(out: &mut Vec<u8>, c: &Chunk)
    ensures
        final(out)@ == old(out)@ + chunk_le(*c),
{
    push_u32_le(out, c.start);
    push_u32_le(out, c.end);
    proof {
        assert(out@ =~= old(out)@ + chunk_le(*c));
    }
}

/// Append `n` zero bytes to `out`.
fn push_zeros(out: &mut Vec<u8>, n: usize)
    ensures
        final(out)@ == old(out)@ + zeros(n as nat),
{
    let mut i: usize = 0;
    while i < n
        invariant
            i <= n,
            out@ == old(out)@ + zeros(i as nat),
        decreases n - i,
    {
        out.push(0);
        i = i + 1;
        proof {
            assert(out@ =~= old(out)@ + zeros(i as nat));
        }
    }
}

/// Append a copy of `src` to `out`.
fn push_bytes(out: &mut Vec<u8>, src: &Vec<u8>)
    ensures
        final(out)@ == old(out)@ + src@,
{
    let mut i: usize = 0;
    while i < src.len()
        invariant
            i <= src@.len(),
            out@ == old(out)@ + src@.take(i as int),
        decreases src@.len() - i,
    {
        out.push(src[i]);
        i = i + 1;
        proof {
            assert(out@ =~= old(out)@ + src@.take(i as int));
        }
    }
    proof {
        assert(old(out)@ + src@.take(src@.len() as int) =~= old(out)@ + src@);
    }
}

/// Serialize the head into its sector.
pub fn head_to_sector(h: &Head) -> (r: Vec<u8>)
    ensures
        r@ == head_bytes(*h),
        r@.len() == SECTOR_SIZE,
{
    let mut r: Vec<u8> = Vec::new();
    push_u16_le(&mut r, h.version);
    r.push(104);
    r.push(101);
    r.push(97);
    r.push(100);
    push_chunk_le(&mut r, &h.fat);
    push_chunk_le(&mut r, &h.dat);
    push_zeros(&mut r, HEAD_PADDING_SIZE);
    proof {
        assert(r@ =~= head_bytes(*h));
    }
    r
}

/// Serialize an inode into its sector.
pub fn inode_to_sector(ino: &Inode) -> (r: Vec<u8>)
    requires
        ino.wf(),
    ensures
        r@ == ino.bytes(),
        r@.len() == SECTOR_SIZE,
{
    let mut r: Vec<u8> = Vec::new();
    push_bytes(&mut r, &ino.name);
    let mut i: usize = 0;
    while i < INODE_FLT_SIZE
        invariant
            i <= INODE_FLT_SIZE,
            ino.wf(),
            r@ == ino.name@ + words_le(ino.flt@.take(i as int)),
        decreases INODE_FLT_SIZE - i,
    {
        proof {
            assert(ino.flt@.take(i + 1) =~= ino.flt@.take(i as int).push(ino.flt@[i as int]));
            lemma_words_le_snoc(ino.flt@.take(i as int), ino.flt@[i as int]);
        }
        push_u32_le(&mut r, ino.flt[i]);
        i = i + 1;
        proof {
            assert(r@ =~= ino.name@ + words_le(ino.flt@.take(i as int)));
        }
    }
    proof {
        assert(ino.flt@.take(INODE_FLT_SIZE as int) =~= ino.flt@);
    }
    let mut j: usize = 0;
    while j < INODE_BLT_SIZE
        invariant
            j <= INODE_BLT_SIZE,
            ino.wf(),
            r@ == ino.name@ + words_le(ino.flt@) + words_le(ino.blt@.take(j as int)),
        decreases INODE_BLT_SIZE - j,
    {
        proof {
            assert(ino.blt@.take(j + 1) =~= ino.blt@.take(j as int).push(ino.blt@[j as int]));
            lemma_words_le_snoc(ino.blt@.take(j as int), ino.blt@[j as int]);
        }
        push_u32_le(&mut r, ino.blt[j]);
        j = j + 1;
        proof {
            assert(r@ =~= ino.name@ + words_le(ino.flt@) + words_le(ino.blt@.take(j as int)));
        }
    }
    proof {
        assert(ino.blt@.take(INODE_BLT_SIZE as int) =~= ino.blt@);
    }
    let mut k: usize = 0;
    while k < INODE_FRAGS_SIZE
        invariant
            k <= INODE_FRAGS_SIZE,
            ino.wf(),
            r@ == ino.name@ + words_le(ino.flt@) + words_le(ino.blt@) + chunks_le(
                ino.frags@.take(k as int),
            ),
        decreases INODE_FRAGS_SIZE - k,
    {
        proof {
            assert(ino.frags@.take(k + 1) =~= ino.frags@.take(k as int).push(
                ino.frags@[k as int],
            ));
            lemma_chunks_le_snoc(ino.frags@.take(k as int), ino.frags@[k as int]);
        }
        let c = ino.frags[k];
        push_chunk_le(&mut r, &c);
        k = k + 1;
        proof {
            assert(r@ =~= ino.name@ + words_le(ino.flt@) + words_le(ino.blt@) + chunks_le(
                ino.frags@.take(k as int),
            ));
        }
    }
    proof {
        assert(ino.frags@.take(INODE_FRAGS_SIZE as int) =~= ino.frags@);
        assert(r@ =~= ino.bytes());
        lemma_inode_bytes_len(ino);
    }
    r
}


/// One input file handed to the builder: its name and its content bytes.
/// Reading the input directory happens outside the library; the builder
/// takes the files as plain values, in directory-enumeration order.
pub struct InputFile {
    pub name: Vec<u8>,
    pub content: Vec<u8>,
}

/// Sectors needed to hold `len` bytes, the final sector zero-padded.
pub open spec fn sectors_needed(len: nat) -> nat {
    (len + 511) / 512
}

/// Content padded with zeros to a whole number of sectors.
pub open spec fn padded(c: Seq<u8>) -> Seq<u8> {
    c + zeros((sectors_needed(c.len()) * 512 - c.len()) as nat)
}

/// Facts about the sector count: it is the exact ceiling division, and it
/// matches the quotient-plus-partial form the builder computes.
pub proof fn lemma_sectors_needed(len: nat)
    ensures
        len <= sectors_needed(len) * 512,
        sectors_needed(len) * 512 < len + 512,
        sectors_needed(len) == len / 512 + (if len % 512 > 0 {
            1nat
        } else {
            0nat
        }),
        len % 512 > 0 ==> sectors_needed(len) * 512 - len == 512 - len % 512,
        len % 512 == 0 ==> sectors_needed(len) * 512 == len,
        sectors_needed(len) == 0 <==> len == 0,
{
    let l = len as int;
    vstd::arithmetic::div_mod::lemma_fundamental_div_mod(l, 512);
    vstd::arithmetic::div_mod::lemma_fundamental_div_mod(l + 511, 512);
    assert(0 <= l % 512 < 512) by (nonlinear_arith);
    assert(0 <= (l + 511) % 512 < 512) by (nonlinear_arith);
    let q = l / 512;
    let r = l % 512;
    if r == 0 {
        assert((l + 511) / 512 == q) by (nonlinear_arith)
            requires
                l == 512 * q + r,
                r == 0,
                0 <= l,
        ;
    } else {
        assert((l + 511) / 512 == q + 1) by (nonlinear_arith)
            requires
                l == 512 * q + r,
                0 < r < 512,
                0 <= l,
        ;
    }
}

/// The padded content is a whole number of sectors long.
pub proof fn lemma_padded_len(c: Seq<u8>)
    ensures
        padded(c).len() == sectors_needed(c.len()) * 512,
{
    lemma_sectors_needed(c.len());
}

/// Data sectors taken by the first `k` input files.
pub open spec fn data_sectors_upto(files: Seq<InputFile>, k: int) -> nat
    decreases k,
{
    if k <= 0 {
        0
    } else {
        data_sectors_upto(files, k - 1) + sectors_needed(files[k - 1].content@.len())
    }
}

/// The data-sector count of a prefix never exceeds that of a longer prefix.
pub proof fn lemma_data_sectors_mono(files: Seq<InputFile>, i: int, j: int)
    requires
        i <= j,
    ensures
        data_sectors_upto(files, i) <= data_sectors_upto(files, j),
    decreases j - i,
{
    if i < j {
        lemma_data_sectors_mono(files, i, j - 1);
    }
}

/// The data fragment of file `k` in an image with a FAT of `f` sectors:
/// its payload's sectors inside the DAT, or the null chunk for an empty file.
pub open spec fn file_frag(files: Seq<InputFile>, k: int, f: u32) -> Chunk {
    let ns = sectors_needed(files[k].content@.len());
    if ns == 0 {
        Chunk { start: 0u32, end: 0u32 }
    } else {
        Chunk {
            start: (f + 1 + data_sectors_upto(files, k)) as u32,
            end: (f + data_sectors_upto(files, k) + ns) as u32,
        }
    }
}

/// The inode record of file `k`: its zero-padded name, no children, a back
/// link to the apex, and its single data fragment.
pub open spec fn file_inode_bytes(files: Seq<InputFile>, k: int, f: u32) -> Seq<u8> {
    (files[k].name@ + zeros((INODE_NAME_SIZE - files[k].name@.len()) as nat)) + words_le(
        zero_words(INODE_FLT_SIZE as nat),
    ) + words_le(seq![1u32] + zero_words((INODE_BLT_SIZE - 1) as nat)) + chunks_le(
        seq![file_frag(files, k, f)] + null_chunks((INODE_FRAGS_SIZE - 1) as nat),
    )
}

/// The apex's front link table: entry `i` points at the inode in sector
/// `i + 2` for each of the `count` files, the rest is zero.
pub open spec fn apex_flt(count: nat) -> Seq<u32> {
    Seq::new(
        INODE_FLT_SIZE as nat,
        |i: int|
            if i < count {
                (i + 2) as u32
            } else {
                0u32
            },
    )
}

/// The apex record: named `/`, its front links pointing at the file inodes.
pub open spec fn apex_bytes(count: nat) -> Seq<u8> {
    (seq![47u8] + zeros((INODE_NAME_SIZE - 1) as nat)) + words_le(apex_flt(count)) + words_le(
        zero_words(INODE_BLT_SIZE as nat),
    ) + chunks_le(null_chunks(INODE_FRAGS_SIZE as nat))
}

/// The FAT records of the first `k` files, concatenated.
pub open spec fn fat_bytes_upto(files: Seq<InputFile>, k: int, f: u32) -> Seq<u8>
    decreases k,
{
    if k <= 0 {
        Seq::empty()
    } else {
        fat_bytes_upto(files, k - 1, f) + file_inode_bytes(files, k - 1, f)
    }
}

/// The padded payloads of the first `k` files, concatenated.
pub open spec fn data_bytes_upto(files: Seq<InputFile>, k: int) -> Seq<u8>
    decreases k,
{
    if k <= 0 {
        Seq::empty()
    } else {
        data_bytes_upto(files, k - 1) + padded(files[k - 1].content@)
    }
}

/// The whole image: the head sector; the apex; one inode sector per file;
/// zero sectors for the unused FAT slots up to `f`; the padded payloads;
/// and zero fill up to the DAT's end.
pub open spec fn image_bytes(files: Seq<InputFile>, f: u32, d: u32) -> Seq<u8>
    recommends
        files.len() < f,
        data_sectors_upto(files, files.len() as int) <= d,
{
    let count = files.len() as int;
    head_bytes(
        Head {
            version: 1u16,
            fat: Chunk { start: 1u32, end: f },
            dat: Chunk { start: (f + 1) as u32, end: (f + d) as u32 },
        },
    ) + apex_bytes(files.len()) + fat_bytes_upto(files, count, f) + zeros(
        ((f - 1 - count) * 512) as nat,
    ) + data_bytes_upto(files, count) + zeros(
        ((d - data_sectors_upto(files, count)) * 512) as nat,
    )
}

/// A built image is exactly `1 + f + d` sectors long.
pub proof fn lemma_image_bytes_len(files: Seq<InputFile>, f: u32, d: u32)
    requires
        files.len() < f,
        data_sectors_upto(files, files.len() as int) <= d,
        forall|k: int| 0 <= k < files.len() ==> (#[trigger] files[k]).name@.len()
            <= INODE_NAME_SIZE,
    ensures
        image_bytes(files, f, d).len() == (1 + f + d) * 512,
{
    let count = files.len() as int;
    lemma_apex_bytes_len(files.len());
    lemma_fat_bytes_upto_len(files, count, f);
    lemma_data_bytes_upto_len(files, count);
}

/// The apex record is one sector.
proof fn lemma_apex_bytes_len(count: nat)
    ensures
        apex_bytes(count).len() == SECTOR_SIZE,
{
    lemma_words_le_len(apex_flt(count));
    lemma_words_le_len(zero_words(INODE_BLT_SIZE as nat));
    lemma_chunks_le_len(null_chunks(INODE_FRAGS_SIZE as nat));
}

/// Each file's FAT record is one sector.
proof fn lemma_file_inode_bytes_len(files: Seq<InputFile>, k: int, f: u32)
    requires
        0 <= k < files.len(),
        files[k].name@.len() <= INODE_NAME_SIZE,
    ensures
        file_inode_bytes(files, k, f).len() == SECTOR_SIZE,
{
    lemma_words_le_len(zero_words(INODE_FLT_SIZE as nat));
    lemma_words_le_len(seq![1u32] + zero_words((INODE_BLT_SIZE - 1) as nat));
    lemma_chunks_le_len(seq![file_frag(files, k, f)] + null_chunks((INODE_FRAGS_SIZE - 1) as nat));
}

/// The first `k` FAT records take `k` sectors.
proof fn lemma_fat_bytes_upto_len(files: Seq<InputFile>, k: int, f: u32)
    requires
        0 <= k <= files.len(),
        forall|i: int| 0 <= i < files.len() ==> (#[trigger] files[i]).name@.len()
            <= INODE_NAME_SIZE,
    ensures
        fat_bytes_upto(files, k, f).len() == k * 512,
    decreases k,
{
    if k > 0 {
        lemma_fat_bytes_upto_len(files, k - 1, f);
        lemma_file_inode_bytes_len(files, k - 1, f);
    }
}

/// The first `k` padded payloads take their sector count exactly.
proof fn lemma_data_bytes_upto_len(files: Seq<InputFile>, k: int)
    requires
        0 <= k <= files.len(),
    ensures
        data_bytes_upto(files, k).len() == data_sectors_upto(files, k) * 512,
    decreases k,
{
    if k > 0 {
        lemma_data_bytes_upto_len(files, k - 1);
        lemma_padded_len(files[k - 1].content@);
    }
}

/// Why the builder rejected its input.
#[derive(Clone, Copy, PartialEq, Eq, Structural, Debug)]
pub enum BuildError {
    /// More input files than the FAT (or the apex's link table) can hold.
    TooManyFiles,
    /// The payloads take more sectors than the data area reserves.
    TooMuchData,
}

/// Build the image for the given input files, with a FAT of
/// `max_file_count` sectors and a data area of `dat_sectors` sectors.
///
/// The inputs come as plain values in directory-enumeration order; no
/// ordering is imposed here, so reproducible builds must sort beforehand.
/// The result is the exact byte sequence of [`image_bytes`], or the error
/// naming the capacity that was exceeded.
#[verifier::loop_isolation(false)]
#[verifier::rlimit(100)]
pub fn mkfs(files: &Vec<InputFile>, max_file_count: u32, dat_sectors: u32) -> (result: Result<
    Vec<u8>,
    BuildError,
>)
    requires
        1 <= max_file_count,
        1 <= dat_sectors,
        max_file_count + dat_sectors <= u32::MAX,
        (1 + max_file_count + dat_sectors) * 512 <= usize::MAX,
        forall|k: int| 0 <= k < files@.len() ==> (#[trigger] files@[k]).name@.len()
            <= INODE_NAME_SIZE,
    ensures
        match result {
            Ok(img) => {
                &&& files@.len() <= INODE_FLT_SIZE
                &&& files@.len() < max_file_count
                &&& data_sectors_upto(files@, files@.len() as int) <= dat_sectors
                &&& img@ == image_bytes(files@, max_file_count, dat_sectors)
                &&& img@.len() == (1 + max_file_count + dat_sectors) * 512
            },
            Err(BuildError::TooManyFiles) => files@.len() > INODE_FLT_SIZE || files@.len()
                >= max_file_count,
            Err(BuildError::TooMuchData) => {
                &&& files@.len() <= INODE_FLT_SIZE
                &&& files@.len() < max_file_count
                &&& data_sectors_upto(files@, files@.len() as int) > dat_sectors
            },
        },
{
    let count = files.len();
    if count > INODE_FLT_SIZE || count >= max_file_count as usize {
        return Err(BuildError::TooManyFiles);
    }
    // Total the data sectors, rejecting inputs that overrun the data area.
    let mut total: usize = 0;
    let mut k: usize = 0;
    while k < count
        invariant
            k <= count,
            total == data_sectors_upto(files@, k as int),
            total <= dat_sectors,
        decreases count - k,
    {
        let file = &files[k];
        let len = file.content.len();
        let ns = len / SECTOR_SIZE + (if len % SECTOR_SIZE > 0 {
            1
        } else {
            0
        });
        proof {
            lemma_sectors_needed(len as nat);
        }
        if ns > (dat_sectors as usize) - total {
            proof {
                lemma_data_sectors_mono(files@, k + 1, count as int);
            }
            return Err(BuildError::TooMuchData);
        }
        total = total + ns;
        k = k + 1;
    }
    let ghost total_sectors = data_sectors_upto(files@, count as int);
    // Head sector.
    let head = Head {
        version: 1,
        fat: Chunk::new(1, max_file_count),
        dat: Chunk::new(max_file_count + 1, max_file_count + dat_sectors),
    };
    let mut img = head_to_sector(&head);
    // Apex inode, linking each file's FAT sector.
    let mut slash: Vec<u8> = Vec::new();
    slash.push(47);
    let mut apex = Inode::new(slash.as_slice());
    let mut j: usize = 0;
    while j < count
        invariant
            j <= count,
            apex.wf(),
            apex.name@ == seq![47u8] + zeros((INODE_NAME_SIZE - 1) as nat),
            apex.blt@ == zero_words(INODE_BLT_SIZE as nat),
            apex.frags@ == null_chunks(INODE_FRAGS_SIZE as nat),
            forall|i: int| 0 <= i < j ==> apex.flt@[i] == (i + 2) as u32,
            forall|i: int| j <= i < INODE_FLT_SIZE ==> apex.flt@[i] == 0u32,
        decreases count - j,
    {
        apex.flt.set(j, (j as u32) + 2);
        j = j + 1;
    }
    proof {
        assert(apex.flt@ =~= apex_flt(files@.len()));
        assert(apex.bytes() =~= apex_bytes(files@.len()));
    }
    let apex_sec = inode_to_sector(&apex);
    push_bytes(&mut img, &apex_sec);
    // One inode sector per file.
    let mut cur: usize = 0;
    let mut k2: usize = 0;
    while k2 < count
        invariant
            k2 <= count,
            cur == data_sectors_upto(files@, k2 as int),
            img@ == head_bytes(head) + apex_bytes(files@.len()) + fat_bytes_upto(
                files@,
                k2 as int,
                max_file_count,
            ),
        decreases count - k2,
    {
        let file = &files[k2];
        let mut ino = Inode::new(file.name.as_slice());
        ino.blt.set(0, 1);
        let len = file.content.len();
        let ns = len / SECTOR_SIZE + (if len % SECTOR_SIZE > 0 {
            1
        } else {
            0
        });
        proof {
            lemma_sectors_needed(len as nat);
            lemma_data_sectors_mono(files@, k2 + 1, count as int);
        }
        if ns > 0 {
            proof {
                assert(total == data_sectors_upto(files@, count as int));
                assert(cur + ns == data_sectors_upto(files@, k2 + 1));
                assert(cur + ns <= total);
            }
            let st = max_file_count + 1 + (cur as u32);
            ino.frags.set(0, Chunk::new(st, st + ((ns - 1) as u32)));
        }
        proof {
            assert(ino.blt@ =~= seq![1u32] + zero_words((INODE_BLT_SIZE - 1) as nat));
            assert(ino.frags@ =~= seq![file_frag(files@, k2 as int, max_file_count)]
                + null_chunks((INODE_FRAGS_SIZE - 1) as nat));
            assert(ino.bytes() =~= file_inode_bytes(files@, k2 as int, max_file_count));
        }
        let sec = inode_to_sector(&ino);
        push_bytes(&mut img, &sec);
        cur = cur + ns;
        k2 = k2 + 1;
    }
    // Zero sectors for the unused FAT slots.
    push_zeros(&mut img, ((max_file_count as usize) - 1 - count) * SECTOR_SIZE);
    // The payloads, each zero-padded to whole sectors.
    let mut k3: usize = 0;
    let ghost before_data = img@;
    while k3 < count
        invariant
            k3 <= count,
            img@ == before_data + data_bytes_upto(files@, k3 as int),
        decreases count - k3,
    {
        let file = &files[k3];
        push_bytes(&mut img, &file.content);
        let len = file.content.len();
        let pad = if len % SECTOR_SIZE == 0 {
            0
        } else {
            SECTOR_SIZE - len % SECTOR_SIZE
        };
        proof {
            lemma_sectors_needed(len as nat);
        }
        push_zeros(&mut img, pad);
        k3 = k3 + 1;
        proof {
            assert(file.content@ + zeros(pad as nat) =~= padded(file.content@));
            assert(img@ =~= before_data + data_bytes_upto(files@, k3 as int));
        }
    }
    // Zero fill up to the end of the data area.
    push_zeros(&mut img, ((dat_sectors as usize) - total) * SECTOR_SIZE);
    proof {
        assert(img@ =~= image_bytes(files@, max_file_count, dat_sectors));
        lemma_image_bytes_len(files@, max_file_count, dat_sectors);
    }
    Ok(img)
}

/// Builder configuration: input directory, output path, FAT capacity, and
/// the initial size reserved per file (unused).
pub struct Config {
    pub input: String,
    pub output: String,
    pub max_file_count: u32,
    pub init_file_size: usize,
}

impl Config {
    /// The stock configuration the builder runs with.
    pub fn default() -> (c: Self)
        ensures
            c.input@ == "../initrd/"@,
            c.output@ == "../build/initrd.bin"@,
            c.max_file_count == 1024u32,
            c.init_file_size == SECTOR_SIZE,
    {
        Config {
            input: "../initrd/".to_owned(),
            output: "../build/initrd.bin".to_owned(),
            max_file_count: 1024,
            init_file_size: SECTOR_SIZE,
        }
    }
}

} // verus!
