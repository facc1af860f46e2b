//! A module: one source text with its include directives and, once it is
//! resolved, its flattened code and the files it depends on.

use vstd::prelude::*;
use vstd::string::*;
use crate::scan::{include_views, scan, scan_includes, well_placed, Include, IncludeView};

verus! {

/// A [`Module`] as a mathematical value.
pub struct ModuleView {
    /// The text as it was loaded.
    pub source: Seq<char>,
    /// The include directives of the source, by ascending place.
    pub includes: Seq<IncludeView>,
    /// The source with every directive replaced by the code of the module
    /// it names; empty until the module is resolved.
    pub code: Seq<char>,
    /// The canonical path of every file that the code was put together
    /// from, the module's own left out.
    pub dependencies: Set<Seq<char>>,
}

/// The texts of a list of strings.
pub open spec fn texts(list: Seq<String>) -> Seq<Seq<char>> {
    Seq::new(list.len(), |i: int| list[i]@)
}

/// One source text, scanned, and resolved or still to be resolved.
#[derive(Debug, PartialEq, Eq)]
pub struct Module {
    includes: Vec<Include>,
    dependencies: Vec<String>,
    source: String,
    code: String,
}

impl View for Module {
    type V = ModuleView;

    closed spec fn view(&self) -> ModuleView {
        ModuleView {
            source: self.source@,
            includes: include_views(self.includes@),
            code: self.code@,
            dependencies: texts(self.dependencies@).to_set(),
        }
    }
}

impl Module {
    /// The includes are well placed in the source, and no path is listed
    /// twice among the dependencies.
    #[verifier::type_invariant]
    spec fn sound(self) -> bool {
        &&& well_placed(include_views(self.includes@), vstd::utf8::encode_utf8(self.source@))
        &&& texts(self.dependencies@).no_duplicates()
    }

    /// Scans `source` and makes the module that is still to be resolved:
    /// it has its includes, no code and no dependencies.
    pub fn load_source(source: &str) -> (r: Module)
        ensures
            r@ == (ModuleView {
                source: source@,
                includes: scan(source@),
                code: Seq::empty(),
                dependencies: Set::empty(),
            }),
            well_placed(r@.includes, source.spec_bytes()),
    {
        let includes = scan_includes(source);
        let r = Module {
            includes,
            dependencies: Vec::new(),
            source: String::from_str(source),
            code: String::new(),
        };
        proof {
            assert(texts(r.dependencies@).to_set() =~= Set::<Seq<char>>::empty());
        }
        r
    }

    /// Gives the module its code and its dependencies.
    pub(crate) fn resolved(self, code: String, dependencies: Vec<String>) -> (r: Module)
        requires
            texts(dependencies@).no_duplicates(),
        ensures
            r@ == (ModuleView {
                source: self@.source,
                includes: self@.includes,
                code: code@,
                dependencies: texts(dependencies@).to_set(),
            }),
    {
        proof {
            use_type_invariant(&self);
        }
        Module { includes: self.includes, dependencies, source: self.source, code }
    }

    /// The text as it was loaded.
    pub fn source(&self) -> (r: &str)
        ensures
            r@ == self@.source,
    {
        self.source.as_str()
    }

    /// The flattened code.
    pub fn code(&self) -> (r: &str)
        ensures
            r@ == self@.code,
    {
        self.code.as_str()
    }

    /// The include directives of the source, by ascending place.
    pub fn includes(&self) -> (r: &Vec<Include>)
        ensures
            include_views(r@) == self@.includes,
            well_placed(self@.includes, vstd::utf8::encode_utf8(self@.source)),
    {
        proof {
            use_type_invariant(self);
        }
        &self.includes
    }

    /// The canonical path of every file that the code was put together
    /// from, each listed once.
    pub fn dependencies(&self) -> (r: &Vec<String>)
        ensures
            texts(r@).to_set() == self@.dependencies,
            texts(r@).no_duplicates(),
    {
        proof {
            use_type_invariant(self);
        }
        &self.dependencies
    }
}

} // verus!
