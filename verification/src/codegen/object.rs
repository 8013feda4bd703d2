//! ELF object file generation: header serialization and the object builder.
use vstd::prelude::*;
use crate::text::{chars_of, string_of};

verus! {

/// Object file generation error.
#[derive(Debug, Clone)]
pub struct ObjectError {
    pub message: String,
}

impl ObjectError {
    /// The error's text, as `Display` would print it.
    pub fn to_string(&self) -> (r: String)
        ensures
            r@ == self.message@,
    {
        self.message.clone()
    }
}

/// ELF file header.
#[derive(Debug, Clone)]
pub struct ElfHeader {
    pub magic: [u8; 4],
    pub class: u8,
    pub data: u8,
    pub version: u8,
    pub os_abi: u8,
    pub abi_version: u8,
    pub padding: [u8; 7],
    pub e_type: u16,
    pub e_machine: u16,
    pub e_version: u32,
    pub e_entry: u64,
    pub e_phoff: u64,
    pub e_shoff: u64,
    pub e_flags: u32,
    pub e_ehsize: u16,
    pub e_phentsize: u16,
    pub e_phnum: u16,
    pub e_shentsize: u16,
    pub e_shnum: u16,
    pub e_shstrndx: u16,
}

/// The `n` low bytes of `v`, least significant first.
pub open spec fn le_bytes(v: nat, n: nat) -> Seq<u8>
    decreases n,
{
    if n == 0 {
        seq![]
    } else {
        seq![(v % 256) as u8] + le_bytes(v / 256, (n - 1) as nat)
    }
}

/// Appends the `n` low bytes of `v`, least significant first.
fn push_le(out: &mut Vec<u8>, v: u64, n: usize)
    ensures
        final(out)@ == old(out)@ + le_bytes(v as nat, n as nat),
    decreases n,
{
    if n > 0 {
        out.push((v % 256) as u8);
        push_le(out, v / 256, n - 1);
        assert(old(out)@.push((v % 256) as u8) + le_bytes((v / 256) as nat, (n - 1) as nat)
            =~= old(out)@ + le_bytes(v as nat, n as nat));
    }
}

pub proof fn lemma_le_bytes_len(v: nat, n: nat)
    ensures
        le_bytes(v, n).len() == n,
    decreases n,
{
    if n > 0 {
        lemma_le_bytes_len(v / 256, (n - 1) as nat);
    }
}

/// The 64-byte encoding of an ELF64 header, fields in file order, multi-byte fields
/// little-endian.
pub open spec fn header_bytes(h: ElfHeader) -> Seq<u8> {
    h.magic@ + seq![h.class, h.data, h.version, h.os_abi, h.abi_version] + h.padding@
        + le_bytes(h.e_type as nat, 2) + le_bytes(h.e_machine as nat, 2) + le_bytes(
        h.e_version as nat,
        4,
    ) + le_bytes(h.e_entry as nat, 8) + le_bytes(h.e_phoff as nat, 8) + le_bytes(
        h.e_shoff as nat,
        8,
    ) + le_bytes(h.e_flags as nat, 4) + le_bytes(h.e_ehsize as nat, 2) + le_bytes(
        h.e_phentsize as nat,
        2,
    ) + le_bytes(h.e_phnum as nat, 2) + le_bytes(h.e_shentsize as nat, 2) + le_bytes(
        h.e_shnum as nat,
        2,
    ) + le_bytes(h.e_shstrndx as nat, 2)
}

impl Default for ElfHeader {
    /// A relocatable x86-64 ELF64 little-endian header with no sections.
    fn default() -> (r: Self)
        ensures
            r.magic@ == seq![0x7fu8, 0x45u8, 0x4cu8, 0x46u8],
            r.class == 2 && r.data == 1 && r.version == 1 && r.os_abi == 0 && r.abi_version == 0,
            r.padding@ == seq![0u8, 0u8, 0u8, 0u8, 0u8, 0u8, 0u8],
            r.e_type == 1 && r.e_machine == 62 && r.e_version == 1,
            r.e_entry == 0 && r.e_phoff == 0 && r.e_shoff == 0 && r.e_flags == 0,
            r.e_ehsize == 64 && r.e_phentsize == 0 && r.e_phnum == 0,
            r.e_shentsize == 64 && r.e_shnum == 0 && r.e_shstrndx == 0,
    {
        let r = ElfHeader {
            magic: [0x7f, 0x45, 0x4c, 0x46],
            class: 2,
            data: 1,
            version: 1,
            os_abi: 0,
            abi_version: 0,
            padding: [0, 0, 0, 0, 0, 0, 0],
            e_type: 1,
            e_machine: 62,
            e_version: 1,
            e_entry: 0,
            e_phoff: 0,
            e_shoff: 0,
            e_flags: 0,
            e_ehsize: 64,
            e_phentsize: 0,
            e_phnum: 0,
            e_shentsize: 64,
            e_shnum: 0,
            e_shstrndx: 0,
        };
        assert(r.magic@ =~= seq![0x7fu8, 0x45u8, 0x4cu8, 0x46u8]);
        assert(r.padding@ =~= seq![0u8, 0u8, 0u8, 0u8, 0u8, 0u8, 0u8]);
        r
    }
}

impl ElfHeader {
    /// Serializes the header to its 64-byte file encoding.
    pub fn to_bytes(&self) -> (r: Vec<u8>)
        ensures
            r@ == header_bytes(*self),
            r@.len() == 64,
    {
        let mut b: Vec<u8> = Vec::new();
        let mut i: usize = 0;
        while i < 4
            invariant
                i <= 4,
                b@ == self.magic@.take(i as int),
            decreases 4 - i,
        {
            b.push(self.magic[i]);
            i += 1;
            assert(b@ =~= self.magic@.take(i as int));
        }
        assert(self.magic@.take(4) =~= self.magic@);
        b.push(self.class);
        b.push(self.data);
        b.push(self.version);
        b.push(self.os_abi);
        b.push(self.abi_version);
        let ghost ident = b@;
        let mut j: usize = 0;
        while j < 7
            invariant
                j <= 7,
                b@ == ident + self.padding@.take(j as int),
            decreases 7 - j,
        {
            b.push(self.padding[j]);
            j += 1;
            assert(b@ =~= ident + self.padding@.take(j as int));
        }
        assert(self.padding@.take(7) =~= self.padding@);
        assert(b@ =~= self.magic@ + seq![self.class, self.data, self.version, self.os_abi, self.abi_version] + self.padding@);
        push_le(&mut b, self.e_type as u64, 2);
        push_le(&mut b, self.e_machine as u64, 2);
        push_le(&mut b, self.e_version as u64, 4);
        push_le(&mut b, self.e_entry, 8);
        push_le(&mut b, self.e_phoff, 8);
        push_le(&mut b, self.e_shoff, 8);
        push_le(&mut b, self.e_flags as u64, 4);
        push_le(&mut b, self.e_ehsize as u64, 2);
        push_le(&mut b, self.e_phentsize as u64, 2);
        push_le(&mut b, self.e_phnum as u64, 2);
        push_le(&mut b, self.e_shentsize as u64, 2);
        push_le(&mut b, self.e_shnum as u64, 2);
        push_le(&mut b, self.e_shstrndx as u64, 2);
        proof {
            lemma_header_len(*self);
        }
        b
    }
}

/// Every header encodes to exactly 64 bytes, and the encoding starts with the magic bytes.
pub proof fn lemma_header_len(h: ElfHeader)
    ensures
        header_bytes(h).len() == 64,
        header_bytes(h).take(4) == h.magic@,
{
    lemma_le_bytes_len(h.e_type as nat, 2);
    lemma_le_bytes_len(h.e_machine as nat, 2);
    lemma_le_bytes_len(h.e_version as nat, 4);
    lemma_le_bytes_len(h.e_entry as nat, 8);
    lemma_le_bytes_len(h.e_phoff as nat, 8);
    lemma_le_bytes_len(h.e_shoff as nat, 8);
    lemma_le_bytes_len(h.e_flags as nat, 4);
    lemma_le_bytes_len(h.e_ehsize as nat, 2);
    lemma_le_bytes_len(h.e_phentsize as nat, 2);
    lemma_le_bytes_len(h.e_phnum as nat, 2);
    lemma_le_bytes_len(h.e_shentsize as nat, 2);
    lemma_le_bytes_len(h.e_shnum as nat, 2);
    lemma_le_bytes_len(h.e_shstrndx as nat, 2);
    assert(header_bytes(h).take(4) =~= h.magic@);
}

/// Symbol in a symbol table.
#[derive(Debug, Clone)]
pub struct Symbol {
    pub name: String,
    pub value: u64,
    pub size: u64,
    /// 0 = local, 1 = global, 2 = weak
    pub bind: u8,
    /// 0 = notype, 1 = object, 2 = func, 3 = section
    pub sym_type: u8,
    pub shndx: u16,
}

/// Object file builder.
pub struct ObjectBuilder {
    pub text_section: Vec<u8>,
    pub symbols: Vec<Symbol>,
    pub relocations: Vec<(u64, String)>,
}

impl ObjectBuilder {
    pub fn new() -> (r: Self)
        ensures
            r.text_section@.len() == 0,
            r.symbols@.len() == 0,
            r.relocations@.len() == 0,
    {
        ObjectBuilder { text_section: Vec::new(), symbols: Vec::new(), relocations: Vec::new() }
    }

    /// Appends assembled code to the text section.
    pub fn add_code(&mut self, code: &[u8])
        ensures
            final(self).text_section@ == old(self).text_section@ + code@,
            final(self).symbols@ == old(self).symbols@,
            final(self).relocations@ == old(self).relocations@,
    {
        let mut i: usize = 0;
        while i < code.len()
            invariant
                i <= code.len(),
                self.text_section@ == old(self).text_section@ + code@.take(i as int),
                self.symbols@ == old(self).symbols@,
                self.relocations@ == old(self).relocations@,
            decreases code.len() - i,
        {
            self.text_section.push(code[i]);
            i += 1;
            assert(self.text_section@ =~= old(self).text_section@ + code@.take(i as int));
        }
        assert(code@.take(code.len() as int) =~= code@);
    }

    /// Adds a symbol to the symbol table.
    pub fn add_symbol(
        &mut self,
        name: String,
        value: u64,
        size: u64,
        bind: u8,
        sym_type: u8,
        shndx: u16,
    )
        ensures
            final(self).symbols@ == old(self).symbols@.push(
                Symbol { name, value, size, bind, sym_type, shndx },
            ),
            final(self).text_section@ == old(self).text_section@,
            final(self).relocations@ == old(self).relocations@,
    {
        self.symbols.push(Symbol { name, value, size, bind, sym_type, shndx });
    }

    /// Adds a relocation at `offset` against `symbol`.
    pub fn add_relocation(&mut self, offset: u64, symbol: String)
        ensures
            final(self).relocations@ == old(self).relocations@.push((offset, symbol)),
            final(self).text_section@ == old(self).text_section@,
            final(self).symbols@ == old(self).symbols@,
    {
        self.relocations.push((offset, symbol));
    }

    /// The ELF image; no bytes are produced yet, since the system assembler writes the
    /// object file from assembly text.
    pub fn build(&self) -> (r: Result<Vec<u8>, ObjectError>)
        ensures
            r matches Ok(v) && v@.len() == 0,
    {
        Ok(Vec::new())
    }
}

/// The assembly source as it is handed to the assembler: unchanged.
pub fn generate_assembly_file(assembly: &str) -> (r: Result<String, ObjectError>)
    ensures
        r matches Ok(s) && s@ == assembly@,
{
    let cs = chars_of(assembly);
    Ok(string_of(cs.as_slice()))
}

/// Linking through the system tools is not done here; it always succeeds.
pub fn link_assembly(asm_file: &str, output: &str) -> (r: Result<(), ObjectError>)
    ensures
        r is Ok,
{
    Ok(())
}

} // verus!
