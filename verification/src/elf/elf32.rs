//! 32-bit ELF headers.

use super::util::{back_to_back, bytes_le, le16, le32, le64, read_u16, read_u32, read_u64};
use vstd::prelude::*;

verus! {

#[allow(non_camel_case_types)]
#[derive(Debug)]
pub struct Elf32_Ehdr {
    pub e_ident: [u8; 16],
    pub e_type: u16,
    pub e_machine: u16,
    pub e_version: u32,
    pub e_entry: u32,
    pub e_phoff: u32,
    pub e_shoff: u32,
    pub e_flags: u32,
    pub e_ehsize: u16,
    pub e_phentsize: u16,
    pub e_phnum: u16,
    pub e_shentsize: u16,
    pub e_shnum: u16,
    pub e_shstrndx: u16,
}

/// `h` holds the fields of a Elf32_Ehdr stored at `b[0..]`.
pub open spec fn ehdr_at(h: Elf32_Ehdr, b: Seq<u8>) -> bool {
    &&& h.e_ident@ == b.subrange(0, 16)
    &&& h.e_type == le16(b, 16)
    &&& h.e_machine == le16(b, 18)
    &&& h.e_version == le32(b, 20)
    &&& h.e_entry == le32(b, 24)
    &&& h.e_phoff == le32(b, 28)
    &&& h.e_shoff == le32(b, 32)
    &&& h.e_flags == le32(b, 36)
    &&& h.e_ehsize == le16(b, 40)
    &&& h.e_phentsize == le16(b, 42)
    &&& h.e_phnum == le16(b, 44)
    &&& h.e_shentsize == le16(b, 46)
    &&& h.e_shnum == le16(b, 48)
    &&& h.e_shstrndx == le16(b, 50)
}

impl Elf32_Ehdr {
    /// Decodes the header.
    pub fn new(bytes: &[u8]) -> (r: Self)
        requires
            bytes@.len() >= 52,
        ensures
            ehdr_at(r, bytes@),
    {
        let off: usize = 0;
        let e_ident: [u8; 16] = [
            bytes[0],
            bytes[1],
            bytes[2],
            bytes[3],
            bytes[4],
            bytes[5],
            bytes[6],
            bytes[7],
            bytes[8],
            bytes[9],
            bytes[10],
            bytes[11],
            bytes[12],
            bytes[13],
            bytes[14],
            bytes[15],
        ];
        let e_type = read_u16(bytes, off + 16);
        let e_machine = read_u16(bytes, off + 18);
        let e_version = read_u32(bytes, off + 20);
        let e_entry = read_u32(bytes, off + 24);
        let e_phoff = read_u32(bytes, off + 28);
        let e_shoff = read_u32(bytes, off + 32);
        let e_flags = read_u32(bytes, off + 36);
        let e_ehsize = read_u16(bytes, off + 40);
        let e_phentsize = read_u16(bytes, off + 42);
        let e_phnum = read_u16(bytes, off + 44);
        let e_shentsize = read_u16(bytes, off + 46);
        let e_shnum = read_u16(bytes, off + 48);
        let e_shstrndx = read_u16(bytes, off + 50);
        let r = Elf32_Ehdr { e_ident, e_type, e_machine, e_version, e_entry, e_phoff, e_shoff, e_flags, e_ehsize, e_phentsize, e_phnum, e_shentsize, e_shnum, e_shstrndx };
        assert(r.e_ident@ =~= bytes@.subrange(0, 16));
        r
    }
}

#[allow(non_camel_case_types)]
#[derive(Debug)]
pub struct Elf32_Phdr {
    pub p_type: u32,
    pub p_offset: u32,
    pub p_vaddr: u32,
    pub p_paddr: u32,
    pub p_filesz: u32,
    pub p_memsz: u32,
    pub p_flags: u32,
    pub p_align: u32,
}

/// `h` holds the fields of a Elf32_Phdr stored at `b[off..]`.
pub open spec fn phdr_at(h: Elf32_Phdr, b: Seq<u8>, off: int) -> bool {
    &&& h.p_type == le32(b, off + 0)
    &&& h.p_offset == le32(b, off + 4)
    &&& h.p_vaddr == le32(b, off + 8)
    &&& h.p_paddr == le32(b, off + 12)
    &&& h.p_filesz == le32(b, off + 16)
    &&& h.p_memsz == le32(b, off + 20)
    &&& h.p_flags == le32(b, off + 24)
    &&& h.p_align == le32(b, off + 28)
}

impl Elf32_Phdr {
    /// Decodes the header.
    pub fn new(bytes: &[u8], offset: u32) -> (r: Self)
        requires
            offset + 32 <= bytes@.len(),
        ensures
            phdr_at(r, bytes@, offset as int),
    {
        let n = bytes.len();
        assert(offset < n);
        let off = offset as usize;
        let p_type = read_u32(bytes, off + 0);
        let p_offset = read_u32(bytes, off + 4);
        let p_vaddr = read_u32(bytes, off + 8);
        let p_paddr = read_u32(bytes, off + 12);
        let p_filesz = read_u32(bytes, off + 16);
        let p_memsz = read_u32(bytes, off + 20);
        let p_flags = read_u32(bytes, off + 24);
        let p_align = read_u32(bytes, off + 28);
        let r = Elf32_Phdr { p_type, p_offset, p_vaddr, p_paddr, p_filesz, p_memsz, p_flags, p_align };
        r
    }
}

#[allow(non_camel_case_types)]
#[derive(Debug)]
pub struct Elf32_Shdr {
    pub sh_name: u32,
    pub sh_type: u32,
    pub sh_flags: u32,
    pub sh_addr: u32,
    pub sh_offset: u32,
    pub sh_size: u32,
    pub sh_link: u32,
    pub sh_info: u32,
    pub sh_addralign: u32,
    pub sh_entsize: u32,
}

/// `h` holds the fields of a Elf32_Shdr stored at `b[off..]`.
pub open spec fn shdr_at(h: Elf32_Shdr, b: Seq<u8>, off: int) -> bool {
    &&& h.sh_name == le32(b, off + 0)
    &&& h.sh_type == le32(b, off + 4)
    &&& h.sh_flags == le32(b, off + 8)
    &&& h.sh_addr == le32(b, off + 12)
    &&& h.sh_offset == le32(b, off + 16)
    &&& h.sh_size == le32(b, off + 20)
    &&& h.sh_link == le32(b, off + 24)
    &&& h.sh_info == le32(b, off + 28)
    &&& h.sh_addralign == le32(b, off + 32)
    &&& h.sh_entsize == le32(b, off + 36)
}

impl Elf32_Shdr {
    /// Decodes the header.
    pub fn new(bytes: &[u8], offset: u32) -> (r: Self)
        requires
            offset + 40 <= bytes@.len(),
        ensures
            shdr_at(r, bytes@, offset as int),
    {
        let n = bytes.len();
        assert(offset < n);
        let off = offset as usize;
        let sh_name = read_u32(bytes, off + 0);
        let sh_type = read_u32(bytes, off + 4);
        let sh_flags = read_u32(bytes, off + 8);
        let sh_addr = read_u32(bytes, off + 12);
        let sh_offset = read_u32(bytes, off + 16);
        let sh_size = read_u32(bytes, off + 20);
        let sh_link = read_u32(bytes, off + 24);
        let sh_info = read_u32(bytes, off + 28);
        let sh_addralign = read_u32(bytes, off + 32);
        let sh_entsize = read_u32(bytes, off + 36);
        let r = Elf32_Shdr { sh_name, sh_type, sh_flags, sh_addr, sh_offset, sh_size, sh_link, sh_info, sh_addralign, sh_entsize };
        r
    }
}

/// An ELF image and its decoded file header.
pub struct Elf32<'a> {
    bytes: &'a [u8],
    ehdr: Elf32_Ehdr,
}

impl<'a> Elf32<'a> {
    /// The bytes of the image.
    pub closed spec fn spec_bytes(&self) -> Seq<u8> {
        self.bytes@
    }

    /// The decoded file header.
    pub closed spec fn spec_ehdr(&self) -> Elf32_Ehdr {
        self.ehdr
    }

    /// Offset of program header `i`.
    pub open spec fn phdr_offset(&self, i: int) -> int {
        self.spec_ehdr().e_phoff + i * self.spec_ehdr().e_phentsize
    }

    /// Offset of section header `i`.
    pub open spec fn shdr_offset(&self, i: int) -> int {
        self.spec_ehdr().e_shoff + i * self.spec_ehdr().e_shentsize
    }

    /// Program header `i` lies inside the image.
    pub open spec fn phdr_fits(&self, i: int) -> bool {
        self.phdr_offset(i) + 32 <= self.spec_bytes().len() && self.phdr_offset(i) <= u32::MAX
    }

    /// Section header `i` lies inside the image.
    pub open spec fn shdr_fits(&self, i: int) -> bool {
        self.shdr_offset(i) + 40 <= self.spec_bytes().len() && self.shdr_offset(i) <= u32::MAX
    }

    /// Decodes the file header of `bytes`.
    pub fn new(bytes: &'a [u8]) -> (r: Elf32<'a>)
        requires
            bytes@.len() >= 52,
        ensures
            r.spec_bytes() == bytes@,
            ehdr_at(r.spec_ehdr(), bytes@),
    {
        let ehdr = Elf32_Ehdr::new(bytes);
        Elf32 { bytes, ehdr }
    }

    /// The decoded file header.
    pub fn ehdr(&self) -> (r: &Elf32_Ehdr)
        ensures
            *r == self.spec_ehdr(),
    {
        &self.ehdr
    }

    fn phdr_nth(&self, index: u16) -> (r: Elf32_Phdr)
        requires
            self.phdr_fits(index as int),
        ensures
            phdr_at(r, self.spec_bytes(), self.phdr_offset(index as int)),
    {
        let off = self.ehdr.e_phoff + (index as u32) * (self.ehdr.e_phentsize as u32);
        Elf32_Phdr::new(self.bytes, off)
    }

    /// An iterator over the program headers, from the first.
    pub fn phdr_iter(&self) -> (r: Elf32PhdrIter)
        ensures
            r.spec_index() == 0,
            r.spec_elf() == *self,
    {
        Elf32PhdrIter { index: 0, elf32: self }
    }

    fn shdr_nth(&self, index: u16) -> (r: Elf32_Shdr)
        requires
            self.shdr_fits(index as int),
        ensures
            shdr_at(r, self.spec_bytes(), self.shdr_offset(index as int)),
    {
        let off = self.ehdr.e_shoff + (index as u32) * (self.ehdr.e_shentsize as u32);
        Elf32_Shdr::new(self.bytes, off)
    }

    /// An iterator over the section headers, from the first.
    pub fn shdr_iter(&self) -> (r: Elf32ShdrIter)
        ensures
            r.spec_index() == 0,
            r.spec_elf() == *self,
    {
        Elf32ShdrIter { index: 0, elf32: self }
    }
}

/// Yields the program headers in order.
pub struct Elf32PhdrIter<'a> {
    index: u16,
    elf32: &'a Elf32<'a>,
}

impl<'a> Elf32PhdrIter<'a> {
    /// Number of headers already yielded.
    pub closed spec fn spec_index(&self) -> int {
        self.index as int
    }

    /// The image being walked.
    pub closed spec fn spec_elf(&self) -> Elf32<'a> {
        *self.elf32
    }

    /// The next header, or `None` once `e_phnum` headers have been yielded.
    pub fn next(&mut self) -> (r: Option<Elf32_Phdr>)
        requires
            old(self).spec_index() < old(self).spec_elf().spec_ehdr().e_phnum ==> old(self).spec_elf().phdr_fits(old(self).spec_index()),
        ensures
            final(self).spec_elf() == old(self).spec_elf(),
            old(self).spec_index() >= old(self).spec_elf().spec_ehdr().e_phnum ==> r is None && final(self).spec_index() == old(self).spec_index(),
            old(self).spec_index() < old(self).spec_elf().spec_ehdr().e_phnum ==> final(self).spec_index() == old(self).spec_index() + 1 && (r matches Some(h) && phdr_at(h, old(self).spec_elf().spec_bytes(), old(self).spec_elf().phdr_offset(old(self).spec_index()))),
    {
        if self.index >= self.elf32.ehdr.e_phnum {
            return None;
        }
        let h = self.elf32.phdr_nth(self.index);
        self.index = self.index + 1;
        Some(h)
    }

    /// Yields every header still to come, in order: header `i` for each `i`
    /// from the current position up to `e_phnum`. Afterwards `next` gives
    /// `None`.
    pub fn collect(&mut self) -> (r: Vec<Elf32_Phdr>)
        requires
            forall|i: int|
                old(self).spec_index() <= i < old(self).spec_elf().spec_ehdr().e_phnum ==> #[trigger] old(
                    self,
                ).spec_elf().phdr_fits(i),
        ensures
            final(self).spec_elf() == old(self).spec_elf(),
            final(self).spec_index() == if old(self).spec_index() < old(self).spec_elf().spec_ehdr().e_phnum {
                old(self).spec_elf().spec_ehdr().e_phnum as int
            } else {
                old(self).spec_index()
            },
            r@.len() == final(self).spec_index() - old(self).spec_index(),
            forall|k: int|
                0 <= k < r@.len() ==> phdr_at(
                    #[trigger] r@[k],
                    old(self).spec_elf().spec_bytes(),
                    old(self).spec_elf().phdr_offset(old(self).spec_index() + k),
                ),
    {
        let mut out: Vec<Elf32_Phdr> = Vec::new();
        let ghost start = self.spec_index();
        let ghost n = self.spec_elf().spec_ehdr().e_phnum as int;
        loop
            invariant
                start == old(self).spec_index(),
                n == old(self).spec_elf().spec_ehdr().e_phnum,
                self.spec_elf() == old(self).spec_elf(),
                start <= self.spec_index(),
                start < n ==> self.spec_index() <= n,
                start >= n ==> self.spec_index() == start,
                out@.len() == self.spec_index() - start,
                forall|i: int| start <= i < n ==> #[trigger] self.spec_elf().phdr_fits(i),
                forall|k: int|
                    0 <= k < out@.len() ==> phdr_at(
                        #[trigger] out@[k],
                        self.spec_elf().spec_bytes(),
                        self.spec_elf().phdr_offset(start + k),
                    ),
            ensures
                self.spec_elf() == old(self).spec_elf(),
                self.spec_index() == if start < n { n } else { start },
                out@.len() == self.spec_index() - start,
                forall|k: int|
                    0 <= k < out@.len() ==> phdr_at(
                        #[trigger] out@[k],
                        self.spec_elf().spec_bytes(),
                        self.spec_elf().phdr_offset(start + k),
                    ),
            decreases n - self.spec_index(),
        {
            let ghost before = out@;
            match self.next() {
                None => {
                    break;
                },
                Some(h) => {
                    out.push(h);
                    assert forall|k: int| 0 <= k < out@.len() implies phdr_at(
                        #[trigger] out@[k],
                        self.spec_elf().spec_bytes(),
                        self.spec_elf().phdr_offset(start + k),
                    ) by {
                        if k < before.len() {
                            assert(out@[k] == before[k]);
                        }
                    }
                },
            }
        }
        out
    }
}

/// Yields the section headers in order.
pub struct Elf32ShdrIter<'a> {
    index: u16,
    elf32: &'a Elf32<'a>,
}

impl<'a> Elf32ShdrIter<'a> {
    /// Number of headers already yielded.
    pub closed spec fn spec_index(&self) -> int {
        self.index as int
    }

    /// The image being walked.
    pub closed spec fn spec_elf(&self) -> Elf32<'a> {
        *self.elf32
    }

    /// The next header, or `None` once `e_shnum` headers have been yielded.
    pub fn next(&mut self) -> (r: Option<Elf32_Shdr>)
        requires
            old(self).spec_index() < old(self).spec_elf().spec_ehdr().e_shnum ==> old(self).spec_elf().shdr_fits(old(self).spec_index()),
        ensures
            final(self).spec_elf() == old(self).spec_elf(),
            old(self).spec_index() >= old(self).spec_elf().spec_ehdr().e_shnum ==> r is None && final(self).spec_index() == old(self).spec_index(),
            old(self).spec_index() < old(self).spec_elf().spec_ehdr().e_shnum ==> final(self).spec_index() == old(self).spec_index() + 1 && (r matches Some(h) && shdr_at(h, old(self).spec_elf().spec_bytes(), old(self).spec_elf().shdr_offset(old(self).spec_index()))),
    {
        if self.index >= self.elf32.ehdr.e_shnum {
            return None;
        }
        let h = self.elf32.shdr_nth(self.index);
        self.index = self.index + 1;
        Some(h)
    }

    /// Yields every header still to come, in order: header `i` for each `i`
    /// from the current position up to `e_shnum`. Afterwards `next` gives
    /// `None`.
    pub fn collect(&mut self) -> (r: Vec<Elf32_Shdr>)
        requires
            forall|i: int|
                old(self).spec_index() <= i < old(self).spec_elf().spec_ehdr().e_shnum ==> #[trigger] old(
                    self,
                ).spec_elf().shdr_fits(i),
        ensures
            final(self).spec_elf() == old(self).spec_elf(),
            final(self).spec_index() == if old(self).spec_index() < old(self).spec_elf().spec_ehdr().e_shnum {
                old(self).spec_elf().spec_ehdr().e_shnum as int
            } else {
                old(self).spec_index()
            },
            r@.len() == final(self).spec_index() - old(self).spec_index(),
            forall|k: int|
                0 <= k < r@.len() ==> shdr_at(
                    #[trigger] r@[k],
                    old(self).spec_elf().spec_bytes(),
                    old(self).spec_elf().shdr_offset(old(self).spec_index() + k),
                ),
    {
        let mut out: Vec<Elf32_Shdr> = Vec::new();
        let ghost start = self.spec_index();
        let ghost n = self.spec_elf().spec_ehdr().e_shnum as int;
        loop
            invariant
                start == old(self).spec_index(),
                n == old(self).spec_elf().spec_ehdr().e_shnum,
                self.spec_elf() == old(self).spec_elf(),
                start <= self.spec_index(),
                start < n ==> self.spec_index() <= n,
                start >= n ==> self.spec_index() == start,
                out@.len() == self.spec_index() - start,
                forall|i: int| start <= i < n ==> #[trigger] self.spec_elf().shdr_fits(i),
                forall|k: int|
                    0 <= k < out@.len() ==> shdr_at(
                        #[trigger] out@[k],
                        self.spec_elf().spec_bytes(),
                        self.spec_elf().shdr_offset(start + k),
                    ),
            ensures
                self.spec_elf() == old(self).spec_elf(),
                self.spec_index() == if start < n { n } else { start },
                out@.len() == self.spec_index() - start,
                forall|k: int|
                    0 <= k < out@.len() ==> shdr_at(
                        #[trigger] out@[k],
                        self.spec_elf().spec_bytes(),
                        self.spec_elf().shdr_offset(start + k),
                    ),
            decreases n - self.spec_index(),
        {
            let ghost before = out@;
            match self.next() {
                None => {
                    break;
                },
                Some(h) => {
                    out.push(h);
                    assert forall|k: int| 0 <= k < out@.len() implies shdr_at(
                        #[trigger] out@[k],
                        self.spec_elf().spec_bytes(),
                        self.spec_elf().shdr_offset(start + k),
                    ) by {
                        if k < before.len() {
                            assert(out@[k] == before[k]);
                        }
                    }
                },
            }
        }
        out
    }
}

/// The ELF32 file header after its 16 identification bytes: `e_type`, `e_machine` (two bytes each), five four-byte fields `e_version`, `e_entry`, `e_phoff`, `e_shoff`, `e_flags`, and six two-byte fields, stored back to back in that order up to byte 52; field `i` of the decoded header is the little-endian number in its own bytes.
pub proof fn lemma_ehdr_layout(h: Elf32_Ehdr, b: Seq<u8>, i: int)
    requires
        ehdr_at(h, b),
        b.len() >= 52,
        0 <= i < 13,
    ensures
        back_to_back(seq![16int, 18, 20, 24, 28, 32, 36, 40, 42, 44, 46, 48, 50], seq![2int, 2, 4, 4, 4, 4, 4, 2, 2, 2, 2, 2, 2], 16, 52),
        seq![h.e_type as int, h.e_machine as int, h.e_version as int, h.e_entry as int, h.e_phoff as int, h.e_shoff as int, h.e_flags as int, h.e_ehsize as int, h.e_phentsize as int, h.e_phnum as int, h.e_shentsize as int, h.e_shnum as int, h.e_shstrndx as int][i] == bytes_le(b, seq![16int, 18, 20, 24, 28, 32, 36, 40, 42, 44, 46, 48, 50][i], seq![2int, 2, 4, 4, 4, 4, 4, 2, 2, 2, 2, 2, 2][i]),
{
    reveal_with_fuel(bytes_le, 9);
    assert(back_to_back(seq![16int, 18, 20, 24, 28, 32, 36, 40, 42, 44, 46, 48, 50], seq![2int, 2, 4, 4, 4, 4, 4, 2, 2, 2, 2, 2, 2], 16, 52)) by {
        let o: Seq<int> = seq![16int, 18, 20, 24, 28, 32, 36, 40, 42, 44, 46, 48, 50];
        let z: Seq<int> = seq![2int, 2, 4, 4, 4, 4, 4, 2, 2, 2, 2, 2, 2];
        assert forall|k: int| 0 <= k < o.len() - 1 implies #[trigger] o[k + 1] == o[k] + z[k] by {
            if k == 0 {} if k == 1 {} if k == 2 {} if k == 3 {} if k == 4 {} if k == 5 {} if k == 6 {} if k == 7 {} if k == 8 {} if k == 9 {} if k == 10 {} if k == 11 {}
        }
    }
    if i == 0 {
        assert(bytes_le(b, 16, 2) == h.e_type as int);
    }
    if i == 1 {
        assert(bytes_le(b, 18, 2) == h.e_machine as int);
    }
    if i == 2 {
        assert(bytes_le(b, 20, 4) == h.e_version as int);
    }
    if i == 3 {
        assert(bytes_le(b, 24, 4) == h.e_entry as int);
    }
    if i == 4 {
        assert(bytes_le(b, 28, 4) == h.e_phoff as int);
    }
    if i == 5 {
        assert(bytes_le(b, 32, 4) == h.e_shoff as int);
    }
    if i == 6 {
        assert(bytes_le(b, 36, 4) == h.e_flags as int);
    }
    if i == 7 {
        assert(bytes_le(b, 40, 2) == h.e_ehsize as int);
    }
    if i == 8 {
        assert(bytes_le(b, 42, 2) == h.e_phentsize as int);
    }
    if i == 9 {
        assert(bytes_le(b, 44, 2) == h.e_phnum as int);
    }
    if i == 10 {
        assert(bytes_le(b, 46, 2) == h.e_shentsize as int);
    }
    if i == 11 {
        assert(bytes_le(b, 48, 2) == h.e_shnum as int);
    }
    if i == 12 {
        assert(bytes_le(b, 50, 2) == h.e_shstrndx as int);
    }
}

/// The ELF32 program header: `p_type`, `p_offset`, `p_vaddr`, `p_paddr`, `p_filesz`, `p_memsz`, `p_flags`, `p_align`, four bytes each, stored back to back in that order over 32 bytes from `off`; field `i` of the decoded header is the little-endian number in its own bytes.
pub proof fn lemma_phdr_layout(h: Elf32_Phdr, b: Seq<u8>, off: int, i: int)
    requires
        phdr_at(h, b, off),
        0 <= off,
        off + 32 <= b.len(),
        0 <= i < 8,
    ensures
        back_to_back(seq![0int, 4, 8, 12, 16, 20, 24, 28], seq![4int, 4, 4, 4, 4, 4, 4, 4], 0, 32),
        seq![h.p_type as int, h.p_offset as int, h.p_vaddr as int, h.p_paddr as int, h.p_filesz as int, h.p_memsz as int, h.p_flags as int, h.p_align as int][i] == bytes_le(b, off + seq![0int, 4, 8, 12, 16, 20, 24, 28][i], seq![4int, 4, 4, 4, 4, 4, 4, 4][i]),
{
    reveal_with_fuel(bytes_le, 9);
    assert(back_to_back(seq![0int, 4, 8, 12, 16, 20, 24, 28], seq![4int, 4, 4, 4, 4, 4, 4, 4], 0, 32)) by {
        let o: Seq<int> = seq![0int, 4, 8, 12, 16, 20, 24, 28];
        let z: Seq<int> = seq![4int, 4, 4, 4, 4, 4, 4, 4];
        assert forall|k: int| 0 <= k < o.len() - 1 implies #[trigger] o[k + 1] == o[k] + z[k] by {
            if k == 0 {} if k == 1 {} if k == 2 {} if k == 3 {} if k == 4 {} if k == 5 {} if k == 6 {}
        }
    }
    if i == 0 {
        assert(bytes_le(b, off + 0, 4) == h.p_type as int);
    }
    if i == 1 {
        assert(bytes_le(b, off + 4, 4) == h.p_offset as int);
    }
    if i == 2 {
        assert(bytes_le(b, off + 8, 4) == h.p_vaddr as int);
    }
    if i == 3 {
        assert(bytes_le(b, off + 12, 4) == h.p_paddr as int);
    }
    if i == 4 {
        assert(bytes_le(b, off + 16, 4) == h.p_filesz as int);
    }
    if i == 5 {
        assert(bytes_le(b, off + 20, 4) == h.p_memsz as int);
    }
    if i == 6 {
        assert(bytes_le(b, off + 24, 4) == h.p_flags as int);
    }
    if i == 7 {
        assert(bytes_le(b, off + 28, 4) == h.p_align as int);
    }
}

/// The ELF32 section header: `sh_name`, `sh_type`, `sh_flags`, `sh_addr`, `sh_offset`, `sh_size`, `sh_link`, `sh_info`, `sh_addralign`, `sh_entsize`, four bytes each, stored back to back in that order over 40 bytes from `off`; field `i` of the decoded header is the little-endian number in its own bytes.
pub proof fn lemma_shdr_layout(h: Elf32_Shdr, b: Seq<u8>, off: int, i: int)
    requires
        shdr_at(h, b, off),
        0 <= off,
        off + 40 <= b.len(),
        0 <= i < 10,
    ensures
        back_to_back(seq![0int, 4, 8, 12, 16, 20, 24, 28, 32, 36], seq![4int, 4, 4, 4, 4, 4, 4, 4, 4, 4], 0, 40),
        seq![h.sh_name as int, h.sh_type as int, h.sh_flags as int, h.sh_addr as int, h.sh_offset as int, h.sh_size as int, h.sh_link as int, h.sh_info as int, h.sh_addralign as int, h.sh_entsize as int][i] == bytes_le(b, off + seq![0int, 4, 8, 12, 16, 20, 24, 28, 32, 36][i], seq![4int, 4, 4, 4, 4, 4, 4, 4, 4, 4][i]),
{
    reveal_with_fuel(bytes_le, 9);
    assert(back_to_back(seq![0int, 4, 8, 12, 16, 20, 24, 28, 32, 36], seq![4int, 4, 4, 4, 4, 4, 4, 4, 4, 4], 0, 40)) by {
        let o: Seq<int> = seq![0int, 4, 8, 12, 16, 20, 24, 28, 32, 36];
        let z: Seq<int> = seq![4int, 4, 4, 4, 4, 4, 4, 4, 4, 4];
        assert forall|k: int| 0 <= k < o.len() - 1 implies #[trigger] o[k + 1] == o[k] + z[k] by {
            if k == 0 {} if k == 1 {} if k == 2 {} if k == 3 {} if k == 4 {} if k == 5 {} if k == 6 {} if k == 7 {} if k == 8 {}
        }
    }
    if i == 0 {
        assert(bytes_le(b, off + 0, 4) == h.sh_name as int);
    }
    if i == 1 {
        assert(bytes_le(b, off + 4, 4) == h.sh_type as int);
    }
    if i == 2 {
        assert(bytes_le(b, off + 8, 4) == h.sh_flags as int);
    }
    if i == 3 {
        assert(bytes_le(b, off + 12, 4) == h.sh_addr as int);
    }
    if i == 4 {
        assert(bytes_le(b, off + 16, 4) == h.sh_offset as int);
    }
    if i == 5 {
        assert(bytes_le(b, off + 20, 4) == h.sh_size as int);
    }
    if i == 6 {
        assert(bytes_le(b, off + 24, 4) == h.sh_link as int);
    }
    if i == 7 {
        assert(bytes_le(b, off + 28, 4) == h.sh_info as int);
    }
    if i == 8 {
        assert(bytes_le(b, off + 32, 4) == h.sh_addralign as int);
    }
    if i == 9 {
        assert(bytes_le(b, off + 36, 4) == h.sh_entsize as int);
    }
}

} // verus!
