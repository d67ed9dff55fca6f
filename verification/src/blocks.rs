//! Record types of the bootable-image filesystem: the super block that
//! fronts the image and the per-file inode records.

use vstd::prelude::*;
use vstd::string::StrSliceExecFns;

verus! {

/// Signature written in the super block for validation.
pub const SIGN_SB: u16 = 0x4321;

/// LBA address of a disk sector.
pub type Addr = u32;

/// Name, link and data table lengths of an inode record, chosen so the
/// record fills one sector.
pub const INODE_NAME_LEN: usize = 32;

/// Entries of an inode's front and back link tables.
pub const INODE_LINK_LEN: usize = 32;

/// Entries of an inode's data allocation table.
pub const INODE_DAT_LEN: usize = 16;

/// An array of consecutive disk sectors.
#[derive(Clone, Copy, PartialEq, Eq, Structural, Debug)]
pub struct Cluster {
    pub start: Addr,
    pub end: Addr,
}

impl Cluster {
    /// A cluster spanning sectors `start` through `end`.
    pub fn new(start: Addr, end: Addr) -> (c: Self)
        ensures
            c == (Cluster { start, end }),
    {
        Cluster { start, end }
    }
}

/// Root block of the filesystem: signature, format version, block size, an
/// optional direct-boot link for the bootloader, and the root address.
pub struct SuperBlock {
    pub sign: u16,
    pub version: u16,
    pub blocksize: u16,
    pub directboot: Option<Cluster>,
    pub root: Option<Addr>,
}

impl SuperBlock {
    /// A fresh super block: signed, with no direct-boot link and no root.
    pub fn new(version: u16, blocksize: u16) -> (sb: Self)
        ensures
            sb.sign == SIGN_SB,
            sb.version == version,
            sb.blocksize == blocksize,
            sb.directboot is None,
            sb.root is None,
    {
        SuperBlock { sign: SIGN_SB, version, blocksize, directboot: None, root: None }
    }
}

/// Per-file record: name, front and back link tables, and the data
/// allocation table pointing at the file's sectors.
pub struct Inode {
    pub name: Vec<char>,
    pub flt: Vec<Addr>,
    pub blt: Vec<Addr>,
    pub dat: Vec<Cluster>,
}

impl Inode {
    /// The name characters.
    pub open spec fn name_view(&self) -> Seq<char> {
        self.name@
    }

    /// The front link table.
    pub open spec fn flt_view(&self) -> Seq<Addr> {
        self.flt@
    }

    /// The back link table.
    pub open spec fn blt_view(&self) -> Seq<Addr> {
        self.blt@
    }

    /// The tables have their fixed lengths.
    pub open spec fn wf(&self) -> bool {
        &&& self.name_view().len() == INODE_NAME_LEN
        &&& self.flt_view().len() == INODE_LINK_LEN
        &&& self.blt_view().len() == INODE_LINK_LEN
        &&& self.dat@.len() == INODE_DAT_LEN
    }

    /// A fresh inode: name all NUL, no links, no data clusters.
    pub fn new() -> (ino: Self)
        ensures
            ino.wf(),
            ino.name_view() == Seq::new(INODE_NAME_LEN as nat, |i: int| '\u{0}'),
            ino.flt_view() == Seq::new(INODE_LINK_LEN as nat, |i: int| 0u32),
            ino.blt_view() == Seq::new(INODE_LINK_LEN as nat, |i: int| 0u32),
            ino.dat@ == Seq::new(INODE_DAT_LEN as nat, |i: int| Cluster { start: 0u32, end: 0u32 }),
    {
        let mut name: Vec<char> = Vec::new();
        let mut i: usize = 0;
        while i < INODE_NAME_LEN
            invariant
                i <= INODE_NAME_LEN,
                name@ =~= Seq::new(i as nat, |k: int| '\u{0}'),
            decreases INODE_NAME_LEN - i,
        {
            name.push('\u{0}');
            i = i + 1;
            proof {
                assert(name@ =~= Seq::new(i as nat, |k: int| '\u{0}'));
            }
        }
        let mut flt: Vec<Addr> = Vec::new();
        let mut j: usize = 0;
        while j < INODE_LINK_LEN
            invariant
                j <= INODE_LINK_LEN,
                flt@ =~= Seq::new(j as nat, |k: int| 0u32),
            decreases INODE_LINK_LEN - j,
        {
            flt.push(0);
            j = j + 1;
            proof {
                assert(flt@ =~= Seq::new(j as nat, |k: int| 0u32));
            }
        }
        let mut blt: Vec<Addr> = Vec::new();
        let mut k: usize = 0;
        while k < INODE_LINK_LEN
            invariant
                k <= INODE_LINK_LEN,
                blt@ =~= Seq::new(k as nat, |m: int| 0u32),
            decreases INODE_LINK_LEN - k,
        {
            blt.push(0);
            k = k + 1;
            proof {
                assert(blt@ =~= Seq::new(k as nat, |m: int| 0u32));
            }
        }
        let mut dat: Vec<Cluster> = Vec::new();
        let mut m: usize = 0;
        while m < INODE_DAT_LEN
            invariant
                m <= INODE_DAT_LEN,
                dat@ =~= Seq::new(m as nat, |k: int| Cluster { start: 0u32, end: 0u32 }),
            decreases INODE_DAT_LEN - m,
        {
            dat.push(Cluster::new(0, 0));
            m = m + 1;
            proof {
                assert(dat@ =~= Seq::new(m as nat, |k: int| Cluster { start: 0u32, end: 0u32 }));
            }
        }
        Inode { name, flt, blt, dat }
    }

    /// Write `title`'s characters into the start of the name field; the
    /// characters past `title`'s end keep their previous values.
    pub fn name(&mut self, title: &str)
        requires
            old(self).wf(),
            title@.len() <= INODE_NAME_LEN,
        ensures
            final(self).wf(),
            final(self).name_view() == title@ + old(self).name_view().skip(title@.len() as int),
            final(self).flt_view() == old(self).flt_view(),
            final(self).blt_view() == old(self).blt_view(),
            final(self).dat@ == old(self).dat@,
    {
        let n = title.unicode_len();
        let mut i: usize = 0;
        while i < n
            invariant
                i <= n,
                n == title@.len(),
                n <= INODE_NAME_LEN,
                old(self).wf(),
                self.name@.len() == INODE_NAME_LEN,
                self.flt@ == old(self).flt@,
                self.blt@ == old(self).blt@,
                self.dat@ == old(self).dat@,
                forall|k: int| 0 <= k < i ==> #[trigger] self.name@[k] == title@[k],
                forall|k: int| i <= k < INODE_NAME_LEN ==> #[trigger] self.name@[k] == old(
                    self,
                ).name@[k],
            decreases n - i,
        {
            let c = title.get_char(i);
            self.name.set(i, c);
            i = i + 1;
        }
        proof {
            assert(self.name@ =~= title@ + old(self).name_view().skip(title@.len() as int));
        }
    }
}

} // verus!
