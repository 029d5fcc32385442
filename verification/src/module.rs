//! Compiled modules: the guest code and the static layout it asks for.

use vstd::prelude::*;

verus! {

/// One instruction of guest code. The guest machine has an operand stack of 64-bit words
/// and the committed bytes of its region; instructions run one after the other.
#[derive(Clone, Copy, Debug, PartialEq, Eq, Structural)]
pub enum Instr {
    /// Pushes the word.
    Const(u64),
    /// Pops two words and pushes their sum, wrapping at 64 bits.
    Add,
    /// Pops one word.
    Drop,
    /// Pops an address, adds `offset` to it, and pushes the byte at that place of memory.
    Load { offset: u64 },
    /// Pops a word and then an address, adds `offset` to the address, and stores the low
    /// byte of the word at that place of memory.
    Store { offset: u64 },
    /// Pops as many words as the import `index` takes and asks the host to serve the call.
    HostCall { index: u32 },
    /// Ends the run with the word on top of the stack, or with zero on an empty stack.
    Return,
    /// Always traps.
    Unreachable,
}

/// A module as plain values.
pub struct ModuleView {
    /// The guest code.
    pub code: Seq<Instr>,
    /// The bytes that memory starts with; zero follows them.
    pub image: Seq<u8>,
    /// Number of bytes of memory that the module needs to start.
    pub initial_memory_size: nat,
    /// Number of bytes of memory that the module may ever use.
    pub max_memory_size: nat,
    /// Index in `code` of the instruction that a run starts with.
    pub entry: nat,
    /// For each host call that the module imports, the number of words it takes.
    pub imports: Seq<nat>,
}

impl ModuleView {
    /// The invariant of every module: the image fits the initial memory, the initial memory
    /// fits the maximum, and the entry point is an instruction of the code.
    pub open spec fn wf(self) -> bool {
        &&& self.image.len() <= self.initial_memory_size <= self.max_memory_size
        &&& self.entry < self.code.len()
    }
}

/// An immutable compiled program with its static layout. Any number of instances may share
/// one module.
#[derive(Debug)]
pub struct Module {
    code: Vec<Instr>,
    image: Vec<u8>,
    initial_memory_size: usize,
    max_memory_size: usize,
    entry: usize,
    imports: Vec<usize>,
}

impl View for Module {
    type V = ModuleView;

    closed spec fn view(&self) -> ModuleView {
        ModuleView {
            code: self.code@,
            image: self.image@,
            initial_memory_size: self.initial_memory_size as nat,
            max_memory_size: self.max_memory_size as nat,
            entry: self.entry as nat,
            imports: self.imports@.map_values(|arity: usize| arity as nat),
        }
    }
}

impl Module {
    /// The invariant of every module; see [`ModuleView::wf`].
    pub open spec fn wf(&self) -> bool {
        self@.wf()
    }

    /// Builds a module from its parts, or nothing where the parts break the invariant of
    /// modules.
    pub fn new(
        code: Vec<Instr>,
        image: Vec<u8>,
        initial_memory_size: usize,
        max_memory_size: usize,
        entry: usize,
        imports: Vec<usize>,
    ) -> (module: Option<Module>)
        ensures
            match module {
                Some(m) => m.wf() && m@ == (ModuleView {
                    code: code@,
                    image: image@,
                    initial_memory_size: initial_memory_size as nat,
                    max_memory_size: max_memory_size as nat,
                    entry: entry as nat,
                    imports: imports@.map_values(|arity: usize| arity as nat),
                }),
                None => !(image@.len() <= initial_memory_size <= max_memory_size && entry
                    < code@.len()),
            },
    {
        if image.len() <= initial_memory_size && initial_memory_size <= max_memory_size && entry
            < code.len() {
            Some(Module { code, image, initial_memory_size, max_memory_size, entry, imports })
        } else {
            None
        }
    }

    /// The guest code.
    pub fn code(&self) -> (code: &Vec<Instr>)
        ensures
            code@ == self@.code,
    {
        &self.code
    }

    /// The bytes that memory starts with.
    pub fn image(&self) -> (image: &Vec<u8>)
        ensures
            image@ == self@.image,
    {
        &self.image
    }

    /// Number of bytes of memory that the module needs to start.
    pub fn initial_memory_size(&self) -> (size: usize)
        ensures
            size == self@.initial_memory_size,
    {
        self.initial_memory_size
    }

    /// Number of bytes of memory that the module may ever use.
    pub fn max_memory_size(&self) -> (size: usize)
        ensures
            size == self@.max_memory_size,
    {
        self.max_memory_size
    }

    /// Index of the instruction that a run starts with.
    pub fn entry(&self) -> (entry: usize)
        ensures
            entry == self@.entry,
    {
        self.entry
    }

    /// Number of words that the import `index` takes, or nothing where the module imports
    /// no such host call.
    pub fn arity(&self, index: u32) -> (arity: Option<usize>)
        ensures
            match arity {
                Some(words) => index < self@.imports.len() && words == self@.imports[index as int],
                None => index >= self@.imports.len(),
            },
    {
        if (index as usize) < self.imports.len() {
            Some(self.imports[index as usize])
        } else {
            None
        }
    }
}

} // verus!
