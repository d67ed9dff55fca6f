//! Assembly of the bootable image: the boot blob, the serialized super
//! block, then the node sectors (the kernel's inode and its data sectors).
//!
//! Reading the input files, serializing the super block, and writing the
//! output happen in the surrounding program; the decisions — which
//! configurations are rejected, where the kernel's cluster lies, what the
//! image bytes are — live here.

use crate::blocks::{Addr, Cluster, Inode, SuperBlock, INODE_NAME_LEN};
use crate::config::{direct_boot_target, is_direct_boot_target, Config, Target, SECTOR_SIZE};
use crate::plexus::sectors_needed;
use vstd::prelude::*;

verus! {

/// Why the builder gave up.
#[derive(Debug)]
pub enum MkfsError {
    /// A target kind the builder does not support (a directory bootloader,
    /// or a non-file source or output).
    BadConfig,
    /// An input file could not be read; carries its path.
    FileNotFound(String),
    /// The bootloader blob was empty.
    EmptyBootloader,
    /// An inode record did not measure one sector; carries the size found.
    InvalidInode(usize),
}

/// Counts reported after a successful build.
pub struct MkfsReport {
    /// Image size in bytes.
    pub fssize: usize,
    /// Inode sectors written.
    pub inode_count: usize,
    /// Data sectors written.
    pub dnode_count: usize,
}

/// The node sectors of the first `k` nodes, concatenated.
pub open spec fn nodes_bytes_upto(nodes: Seq<Vec<u8>>, k: int) -> Seq<u8>
    decreases k,
{
    if k <= 0 {
        Seq::empty()
    } else {
        nodes_bytes_upto(nodes, k - 1) + nodes[k - 1]@
    }
}

/// An image under assembly: the super block value, the boot blob, and the
/// node sectors that follow the super block on disk.
pub struct Image {
    pub sb: SuperBlock,
    pub boot: Vec<u8>,
    pub nodes: Vec<Vec<u8>>,
}

impl Image {
    /// A fresh image around a super block and boot blob, with no nodes yet.
    pub fn new(sb: SuperBlock, boot: Vec<u8>) -> (img: Self)
        ensures
            img.sb == sb,
            img.boot@ == boot@,
            img.nodes@.len() == 0,
    {
        Image { sb, boot, nodes: Vec::new() }
    }

    /// Append the on-disk bytes to `target`: the boot blob, the serialized
    /// super block (produced outside, from `self.sb`), then every node
    /// sector in order.
    #[verifier::loop_isolation(false)]
    pub fn build(&self, sb_bytes: &Vec<u8>, target: &mut Vec<u8>)
        ensures
            final(target)@ == old(target)@ + self.boot@ + sb_bytes@ + nodes_bytes_upto(
                self.nodes@,
                self.nodes@.len() as int,
            ),
    {
        push_bytes(target, &self.boot);
        push_bytes(target, sb_bytes);
        let mut i: usize = 0;
        while i < self.nodes.len()
            invariant
                i <= self.nodes@.len(),
                target@ == old(target)@ + self.boot@ + sb_bytes@ + nodes_bytes_upto(
                    self.nodes@,
                    i as int,
                ),
            decreases self.nodes@.len() - i,
        {
            push_bytes(target, &self.nodes[i]);
            i = i + 1;
            proof {
                assert(target@ =~= old(target)@ + self.boot@ + sb_bytes@ + nodes_bytes_upto(
                    self.nodes@,
                    i as int,
                ));
            }
        }
    }
}

/// Split content into 512-byte sectors, the last one zero-padded. The
/// concatenation of the result is exactly the padded content.
#[verifier::loop_isolation(false)]
pub fn content_sectors(content: &Vec<u8>) -> (r: Vec<Vec<u8>>)
    ensures
        r@.len() == sectors_needed(content@.len()),
        forall|i: int| 0 <= i < r@.len() ==> (#[trigger] r@[i])@.len() == SECTOR_SIZE,
        nodes_bytes_upto(r@, r@.len() as int) == crate::plexus::padded(content@),
{
    proof {
        crate::plexus::lemma_sectors_needed(content@.len());
    }
    let mut buf: Vec<u8> = Vec::new();
    push_bytes(&mut buf, content);
    let len = content.len();
    let pad = if len % SECTOR_SIZE == 0 {
        0
    } else {
        SECTOR_SIZE - len % SECTOR_SIZE
    };
    push_zero_bytes(&mut buf, pad);
    proof {
        assert(buf@ =~= crate::plexus::padded(content@));
    }
    let ghost ns = sectors_needed(content@.len());
    let mut r: Vec<Vec<u8>> = Vec::new();
    let mut s: usize = 0;
    while s < buf.len() / SECTOR_SIZE
        invariant
            buf@ == crate::plexus::padded(content@),
            buf@.len() == ns * 512,
            buf@.len() / 512 == ns,
            s <= ns,
            r@.len() == s,
            forall|i: int| 0 <= i < r@.len() ==> (#[trigger] r@[i])@.len() == SECTOR_SIZE,
            nodes_bytes_upto(r@, s as int) == buf@.take(512 * s as int),
        decreases ns - s,
    {
        let mut sector: Vec<u8> = Vec::new();
        let base = s * SECTOR_SIZE;
        let mut j: usize = 0;
        while j < SECTOR_SIZE
            invariant
                s < ns,
                base == s * 512,
                base + 512 <= buf@.len(),
                j <= SECTOR_SIZE,
                buf@.len() == ns * 512,
                sector@ == buf@.subrange(base as int, base + j),
            decreases SECTOR_SIZE - j,
        {
            sector.push(buf[base + j]);
            j = j + 1;
            proof {
                assert(sector@ =~= buf@.subrange(base as int, base + j));
            }
        }
        let ghost rr = r@;
        r.push(sector);
        s = s + 1;
        proof {
            lemma_nodes_bytes_prefix(rr, r@, s - 1);
            assert(nodes_bytes_upto(r@, s as int) =~= buf@.take(512 * s as int));
        }
    }
    proof {
        assert(buf@.take(512 * ns as int) =~= buf@);
        assert(nodes_bytes_upto(r@, r@.len() as int) == crate::plexus::padded(content@));
    }
    r
}

/// Everything the planning stage settles before any bytes are written: the
/// super block (direct-boot link included), the kernel's inode, and the
/// cluster its content occupies.
pub struct MkfsPlan {
    pub sb: SuperBlock,
    pub inode: Inode,
    pub location: Cluster,
}

/// Plan the build: reject unsupported target kinds and an empty boot blob,
/// place the source content's cluster, set the super block's direct-boot
/// link when the source file is the boot target, and fill in the source's
/// inode.
pub fn mkfs_plan(cfg: &Config, boot: &Vec<u8>, source_name: &String, content_len: usize) -> (r:
    Result<MkfsPlan, MkfsError>)
    requires
        source_name@.len() <= INODE_NAME_LEN,
        content_len / 512 + 1 <= u32::MAX,
    ensures
        match r {
            Ok(plan) => {
                &&& !(cfg.bootloader is Dir) && cfg.output is File && cfg.source is File
                &&& boot@.len() > 0
                &&& plan.location == (Cluster {
                    start: 1u32,
                    end: sectors_needed(content_len as nat) as u32,
                })
                &&& plan.sb.sign == crate::blocks::SIGN_SB
                &&& plan.sb.version == 1u16
                &&& plan.sb.blocksize == cfg.block_size
                &&& plan.sb.root is None
                &&& plan.sb.directboot == (if cfg.directboot && source_name@
                    == direct_boot_target() {
                    Some(plan.location)
                } else {
                    None::<Cluster>
                })
                &&& plan.inode.wf()
                &&& plan.inode.name_view() == source_name@ + Seq::new(
                    (INODE_NAME_LEN - source_name@.len()) as nat,
                    |i: int| '\u{0}',
                )
                &&& plan.inode.flt_view() == Seq::new(32nat, |i: int| 0u32)
                &&& plan.inode.blt_view() == Seq::new(32nat, |i: int| 0u32)
                &&& plan.inode.dat@ == Seq::new(
                    16nat,
                    |i: int| Cluster { start: 0u32, end: 0u32 },
                ).update(0, plan.location)
            },
            Err(MkfsError::BadConfig) => cfg.bootloader is Dir || !(cfg.output is File) || !(
            cfg.source is File),
            Err(MkfsError::EmptyBootloader) => !(cfg.bootloader is Dir) && cfg.output is File
                && cfg.source is File && boot@.len() == 0,
            Err(_) => false,
        },
{
    match &cfg.bootloader {
        Target::Dir(_) => {
            return Err(MkfsError::BadConfig);
        },
        _ => {},
    }
    match &cfg.output {
        Target::File(_) => {},
        _ => {
            return Err(MkfsError::BadConfig);
        },
    }
    match &cfg.source {
        Target::File(_) => {},
        _ => {
            return Err(MkfsError::BadConfig);
        },
    }
    if boot.len() == 0 {
        return Err(MkfsError::EmptyBootloader);
    }
    proof {
        crate::plexus::lemma_sectors_needed(content_len as nat);
    }
    let count = content_len / SECTOR_SIZE + (if content_len % SECTOR_SIZE > 0 {
        1
    } else {
        0
    });
    let location = Cluster::new(1, count as Addr);
    let mut sb = SuperBlock::new(1, cfg.block_size);
    if cfg.directboot && is_direct_boot_target(source_name) {
        sb.directboot = Some(location);
    }
    let mut inode = Inode::new();
    inode.name(source_name.as_str());
    inode.dat.set(0, location);
    proof {
        assert(inode.name_view() =~= source_name@ + Seq::new(
            (INODE_NAME_LEN - source_name@.len()) as nat,
            |i: int| '\u{0}',
        ));
    }
    Ok(MkfsPlan { sb, inode, location })
}

/// The concatenation of the first `k` node sectors reads only those nodes.
proof fn lemma_nodes_bytes_prefix(a: Seq<Vec<u8>>, b: Seq<Vec<u8>>, k: int)
    requires
        k <= a.len(),
        k <= b.len(),
        forall|i: int| 0 <= i < k ==> a[i] == b[i],
    ensures
        nodes_bytes_upto(a, k) == nodes_bytes_upto(b, k),
    decreases k,
{
    if k > 0 {
        lemma_nodes_bytes_prefix(a, b, k - 1);
    }
}

/// Append a copy of `src` to `out`.
fn push_bytes(out: &mut Vec<u8>, src: &Vec<u8>)
    ensures
        final(out)@ == old(out)@ + src@,
{
    let mut i: usize = 0;
    while i < src.len()
        invariant
            i <= src@.len(),
            out@ == old(out)@ + src@.take(i as int),
        decreases src@.len() - i,
    {
        out.push(src[i]);
        i = i + 1;
        proof {
            assert(out@ =~= old(out)@ + src@.take(i as int));
        }
    }
    proof {
        assert(old(out)@ + src@.take(src@.len() as int) =~= old(out)@ + src@);
    }
}

/// Append `n` zero bytes to `out`.
fn push_zero_bytes(out: &mut Vec<u8>, n: usize)
    ensures
        final(out)@ == old(out)@ + Seq::new(n as nat, |i: int| 0u8),
{
    let mut i: usize = 0;
    while i < n
        invariant
            i <= n,
            out@ == old(out)@ + Seq::new(i as nat, |k: int| 0u8),
        decreases n - i,
    {
        out.push(0);
        i = i + 1;
        proof {
            assert(out@ =~= old(out)@ + Seq::new(i as nat, |k: int| 0u8));
        }
    }
}

} // verus!
