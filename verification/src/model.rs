//! The parts of a relocatable object that linking works on.
use std::collections::HashMap;
use vstd::prelude::*;

verus! {

broadcast use vstd::std_specs::hash::group_hash_axioms;

/// A relocation.
#[derive(Debug, Clone, Copy, PartialEq, Eq, Structural)]
pub struct Rel {
    pub offset: u64,
    pub r_type: u32,
    pub sym: usize,
    pub addend: i64,
    /// True for REL relocations (ARM, MIPS o32) whose addend is stored in the
    /// instruction field rather than carried explicitly.
    pub has_implicit: bool,
}

/// A section that may have to be injected or patched.
#[derive(Debug)]
pub struct Sec {
    pub name: String,
    pub align: u64,
    pub writable: bool,
    pub bytes: Vec<u8>,
    pub relocs: Vec<Rel>,
    /// `Some((begin, end))` for a pinned `.rspl.*` section.
    pub splice: Option<(u64, u64)>,
}

/// The parts of a symbol that resolving a relocation needs.
#[derive(Debug)]
pub struct SymInfo {
    pub name: String,
    /// Section index the symbol is defined in, if any.
    pub section: Option<usize>,
    /// Value (offset within its section, or absolute value).
    pub value: u64,
    pub undefined: bool,
}

/// The model of a section.
pub struct SecView {
    pub name: Seq<char>,
    pub align: u64,
    pub writable: bool,
    pub bytes: Seq<u8>,
    pub relocs: Seq<Rel>,
    pub splice: Option<(u64, u64)>,
}

/// The model of a symbol.
pub struct SymView {
    pub name: Seq<char>,
    pub section: Option<usize>,
    pub value: u64,
    pub undefined: bool,
}

impl View for Sec {
    type V = SecView;

    open spec fn view(&self) -> SecView {
        SecView {
            name: self.name@,
            align: self.align,
            writable: self.writable,
            bytes: self.bytes@,
            relocs: self.relocs@,
            splice: self.splice,
        }
    }
}

impl View for SymInfo {
    type V = SymView;

    open spec fn view(&self) -> SymView {
        SymView {
            name: self.name@,
            section: self.section,
            value: self.value,
            undefined: self.undefined,
        }
    }
}

/// A relocatable object: its sections and the symbols that its relocations refer to, both found
/// by their index in the object file.
pub struct ObjectModel {
    indices: Vec<usize>,
    secs: HashMap<usize, Sec>,
    syms: HashMap<usize, SymInfo>,
}

/// The model of an object: its section indices in the order in which they were added, its
/// sections and its symbols.
pub struct ObjView {
    pub indices: Seq<usize>,
    pub secs: Map<usize, SecView>,
    pub syms: Map<usize, SymView>,
}

impl ObjView {
    /// Every section is listed once.
    pub open spec fn well_formed(self) -> bool {
        &&& self.indices.no_duplicates()
        &&& self.secs.dom().finite()
        &&& forall|i: usize| self.indices.contains(i) <==> #[trigger] self.secs.dom().contains(i)
    }

    /// The object without sections and symbols.
    pub open spec fn empty() -> ObjView {
        ObjView { indices: Seq::empty(), secs: Map::empty(), syms: Map::empty() }
    }

    /// The object with one section more, or with another section under an index that it has.
    pub open spec fn with_section(self, index: usize, sec: SecView) -> ObjView {
        ObjView {
            indices: if self.secs.dom().contains(index) {
                self.indices
            } else {
                self.indices.push(index)
            },
            secs: self.secs.insert(index, sec),
            ..self
        }
    }

    /// The object with the symbol under an index.
    pub open spec fn with_symbol(self, index: usize, sym: SymView) -> ObjView {
        ObjView { syms: self.syms.insert(index, sym), ..self }
    }
}

impl View for ObjectModel {
    type V = ObjView;

    closed spec fn view(&self) -> ObjView {
        ObjView {
            indices: self.indices@,
            secs: self.secs@.map_values(|s: Sec| s@),
            syms: self.syms@.map_values(|s: SymInfo| s@),
        }
    }
}

impl ObjectModel {
    /// An object without sections and symbols.
    pub fn new() -> (o: Self)
        ensures
            o@ == ObjView::empty(),
            o@.well_formed(),
    {
        let o = ObjectModel { indices: Vec::new(), secs: HashMap::new(), syms: HashMap::new() };
        assert(o@.secs =~= Map::<usize, SecView>::empty());
        assert(o@.syms =~= Map::<usize, SymView>::empty());
        assert(o@.indices =~= Seq::<usize>::empty());
        o
    }

    /// Add a section, or replace the one of that index.
    pub fn add_section(&mut self, index: usize, sec: Sec)
        requires
            old(self)@.well_formed(),
        ensures
            final(self)@ == old(self)@.with_section(index, sec@),
            final(self)@.well_formed(),
    {
        let ghost before = self@;
        if !self.secs.contains_key(&index) {
            self.indices.push(index);
        }
        self.secs.insert(index, sec);
        proof {
            let after = self@;
            assert(after.secs =~= before.secs.insert(index, sec@));
            assert(after.syms =~= before.syms);
            assert(after == before.with_section(index, sec@));
            lemma_with_section(before, index, sec@);
        }
    }

    /// Add a symbol, or replace the one of that index.
    pub fn add_symbol(&mut self, index: usize, sym: SymInfo)
        requires
            old(self)@.well_formed(),
        ensures
            final(self)@ == old(self)@.with_symbol(index, sym@),
            final(self)@.well_formed(),
    {
        let ghost before = self@;
        self.syms.insert(index, sym);
        proof {
            let after = self@;
            assert(after.secs =~= before.secs);
            assert(after.syms =~= before.syms.insert(index, sym@));
        }
    }

    /// The section indices, in the order in which they were added.
    pub fn indices(&self) -> (r: &[usize])
        ensures
            r@ == self@.indices,
    {
        self.indices.as_slice()
    }

    /// The section of that index.
    pub fn section(&self, index: usize) -> (r: Option<&Sec>)
        ensures
            match r {
                None => !self@.secs.dom().contains(index),
                Some(s) => self@.secs.dom().contains(index) && s@ == self@.secs[index],
            },
    {
        self.secs.get(&index)
    }

    /// The symbol of that index.
    pub fn symbol(&self, index: usize) -> (r: Option<&SymInfo>)
        ensures
            match r {
                None => !self@.syms.dom().contains(index),
                Some(s) => self@.syms.dom().contains(index) && s@ == self@.syms[index],
            },
    {
        self.syms.get(&index)
    }
}

/// Adding a section keeps an object well formed.
pub proof fn lemma_with_section(obj: ObjView, index: usize, sec: SecView)
    requires
        obj.well_formed(),
    ensures
        obj.with_section(index, sec).well_formed(),
{
    let after = obj.with_section(index, sec);
    if !obj.secs.dom().contains(index) {
        assert(!obj.indices.contains(index));
        assert forall|i: usize|
            after.indices.contains(i) <==> #[trigger] after.secs.dom().contains(i) by {
            if after.indices.contains(i) {
                let k = choose|k: int| 0 <= k < after.indices.len() && after.indices[k] == i;
                if k < obj.indices.len() {
                    assert(obj.indices[k] == i);
                    assert(obj.indices.contains(i));
                }
            }
            if after.secs.dom().contains(i) {
                if i == index {
                    assert(after.indices[obj.indices.len() as int] == index);
                } else {
                    assert(obj.indices.contains(i));
                    let k = choose|k: int| 0 <= k < obj.indices.len() && obj.indices[k] == i;
                    assert(after.indices[k] == i);
                }
            }
        }
    } else {
        assert(after.secs.dom() =~= obj.secs.dom());
        assert forall|i: usize|
            after.indices.contains(i) <==> #[trigger] after.secs.dom().contains(i) by {
            assert(obj.indices.contains(i) <==> obj.secs.dom().contains(i));
        }
    }
}

} // verus!
