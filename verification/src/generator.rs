//! The registries of the schema compiler: modules, tables, enumerations and
//! constants, each addressed by the index it got when it was registered.

pub mod constant;
pub mod enumeration;
pub mod module;
pub mod table;

use crate::error::{Error, ErrorView};
use crate::generator::constant::ConstantEntry;
use crate::generator::enumeration::EnumerationEntry;
use crate::generator::module::ModuleEntry;
use crate::generator::table::TableEntry;
use crate::text::{same_text, views};
use vstd::prelude::*;
use vstd::string::StringExecFns;

verus! {

/// Where the compiler reads from and writes to, and how it reports.
#[derive(Debug, PartialEq, Eq)]
pub struct Config {
    pub schema_dir: String,
    pub src_dir: String,
    pub gen_dir: String,
    pub protocol_gen_dir: String,
    pub sql_gen_dir: String,
    pub verbose: bool,
    pub dry_run: bool,
}

/// A module whose declarations are still to be read.
#[derive(Debug, PartialEq, Eq)]
pub struct PendingModule {
    pub module: ModuleEntry,
    /// The file that lists the module's declarations.
    pub source: String,
}

/// The state of one compiler run.
#[derive(Debug, PartialEq, Eq)]
pub struct Generator {
    pub config: Config,
    pub modules: Vec<ModuleEntry>,
    pub tables: Vec<TableEntry>,
    pub enumerations: Vec<EnumerationEntry>,
    pub constants: Vec<ConstantEntry>,
    /// The qualified type identifiers registered so far.
    pub names: Vec<String>,
    /// For each table, by index, its qualified type identifier.
    pub table_indices: Vec<String>,
    /// For each enumeration, by index, its qualified type identifier.
    pub enumeration_indices: Vec<String>,
    /// For each table, by index, the tables that extend it directly.
    pub table_hierarchies: Vec<Vec<usize>>,
    /// The modules that wait to be collected, first come first.
    pub pending: Vec<PendingModule>,
}

/// The first position at which `t` stands in `types`, if it stands there.
pub open spec fn position_of<T>(types: Seq<T>, t: T) -> Option<int>
    decreases types.len(),
{
    if types.len() == 0 {
        None
    } else if position_of(types.drop_last(), t) is Some {
        position_of(types.drop_last(), t)
    } else if types.last() == t {
        Some(types.len() - 1)
    } else {
        None
    }
}

/// `position_of` finds the first occurrence, and fails only where there is
/// none.
pub proof fn lemma_position_of<T>(types: Seq<T>, t: T)
    ensures
        position_of(types, t) matches Some(i) ==> 0 <= i < types.len() && types[i] == t && (forall|
            j: int,
        |
            0 <= j < i ==> types[j] != t),
        position_of(types, t) is None ==> (forall|j: int| 0 <= j < types.len() ==> types[j] != t),
    decreases types.len(),
{
    if types.len() > 0 {
        let front = types.drop_last();
        lemma_position_of(front, t);
        assert(forall|j: int| 0 <= j < front.len() ==> front[j] == types[j]);
    }
}

/// The first position in `v` of a string equal to `t`.
pub fn find_text(v: &Vec<String>, t: &str) -> (r: Option<usize>)
    ensures
        match r {
            Some(i) => position_of(views(v@), t@) == Some(i as int),
            None => position_of(views(v@), t@) is None,
        },
{
    let mut i: usize = 0;
    while i < v.len()
        invariant
            i <= v.len(),
            forall|j: int| 0 <= j < i ==> views(v@)[j] != t@,
        decreases v.len() - i,
    {
        if same_text(v[i].as_str(), t) {
            proof {
                lemma_position_of(views(v@), t@);
                assert(views(v@)[i as int] == t@);
                let k = position_of(views(v@), t@)->0;
                assert(position_of(views(v@), t@) is Some);
                assert(k == i);
            }
            return Some(i);
        }
        i += 1;
    }
    proof {
        lemma_position_of(views(v@), t@);
    }
    None
}

impl Generator {
    /// The index of the table whose qualified type identifier is `t`.
    pub open spec fn spec_table_index(&self, t: Seq<char>) -> Option<int> {
        position_of(views(self.table_indices@), t)
    }

    /// The index of the enumeration whose qualified type identifier is `t`.
    pub open spec fn spec_enumeration_index(&self, t: Seq<char>) -> Option<int> {
        position_of(views(self.enumeration_indices@), t)
    }

    /// Whether `t` is a registered type identifier.
    pub open spec fn is_registered(&self, t: Seq<char>) -> bool {
        views(self.names@).contains(t)
    }

    /// What holds of the registries at every moment of a run: every table has
    /// its type identifier on record, the identifiers on record are
    /// registered, no identifier is registered twice, and a module that
    /// waits in the queue has no entries yet.
    pub open spec fn wf(&self) -> bool {
        &&& self.table_indices.len() == self.tables.len()
        &&& self.enumeration_indices.len() == self.enumerations.len()
        &&& forall|i: int|
            0 <= i < self.tables.len() ==> self.table_indices[i]@ == (#[trigger] self.tables[i]).name@.type_id(
                true,
            )
        &&& forall|i: int|
            0 <= i < self.table_indices.len() ==> self.is_registered(
                #[trigger] self.table_indices[i]@,
            )
        &&& views(self.names@).no_duplicates()
        &&& views(self.table_indices@).no_duplicates()
        &&& forall|k: int|
            0 <= k < self.pending@.len() ==> (#[trigger] self.pending@[k]).module.entries@.len()
                == 0
    }

    /// A run that has registered nothing yet.
    pub fn new(config: Config) -> (r: Self)
        ensures
            r.wf(),
            r.config == config,
            r.modules@.len() == 0,
            r.tables@.len() == 0,
            r.enumerations@.len() == 0,
            r.constants@.len() == 0,
            r.names@.len() == 0,
            r.table_hierarchies@.len() == 0,
            r.pending@.len() == 0,
    {
        Self {
            config,
            modules: Vec::new(),
            tables: Vec::new(),
            enumerations: Vec::new(),
            constants: Vec::new(),
            names: Vec::new(),
            table_indices: Vec::new(),
            enumeration_indices: Vec::new(),
            table_hierarchies: Vec::new(),
            pending: Vec::new(),
        }
    }

    /// The index of the table whose qualified type identifier is `type_ident`.
    pub fn table_index(&self, type_ident: &str) -> (r: Option<usize>)
        ensures
            match r {
                Some(i) => self.spec_table_index(type_ident@) == Some(i as int),
                None => self.spec_table_index(type_ident@) is None,
            },
    {
        find_text(&self.table_indices, type_ident)
    }

    /// The index of the enumeration whose qualified type identifier is
    /// `type_ident`.
    pub fn enumeration_index(&self, type_ident: &str) -> (r: Option<usize>)
        ensures
            match r {
                Some(i) => self.spec_enumeration_index(type_ident@) == Some(i as int) && i
                    < self.enumeration_indices@.len(),
                None => self.spec_enumeration_index(type_ident@) is None,
            },
    {
        proof {
            lemma_position_of(views(self.enumeration_indices@), type_ident@);
        }
        find_text(&self.enumeration_indices, type_ident)
    }

    /// Registers a qualified type identifier, unless it is registered
    /// already.
    pub fn register_type(&mut self, type_ident: &str) -> (r: Result<(), Error>)
        requires
            old(self).wf(),
        ensures
            final(self).wf(),
            match r {
                Ok(_) => !old(self).is_registered(type_ident@) && final(self).names@
                    == old(self).names@.push(final(self).names@.last())
                    && final(self).names@.last()@ == type_ident@,
                Err(e) => old(self).is_registered(type_ident@) && e@
                    == ErrorView::NamespaceCollision(type_ident@) && *final(self) == *old(self),
            },
            final(self).config == old(self).config,
            final(self).modules == old(self).modules,
            final(self).tables == old(self).tables,
            final(self).enumerations == old(self).enumerations,
            final(self).constants == old(self).constants,
            final(self).table_indices == old(self).table_indices,
            final(self).enumeration_indices == old(self).enumeration_indices,
            final(self).table_hierarchies == old(self).table_hierarchies,
            final(self).pending == old(self).pending,
    {
        proof {
            lemma_position_of(views(self.names@), type_ident@);
        }
        if find_text(&self.names, type_ident).is_some() {
            return Err(Error::NamespaceCollision(String::from_str(type_ident)));
        }
        let ghost before = views(self.names@);
        self.names.push(String::from_str(type_ident));
        proof {
            assert(views(self.names@) =~= before.push(type_ident@));
            assert forall|i: int| 0 <= i < self.table_indices.len() implies self.is_registered(
                #[trigger] self.table_indices[i]@,
            ) by {
                let t = self.table_indices[i]@;
                assert(before.contains(t));
                let j = choose|j: int| 0 <= j < before.len() && before[j] == t;
                assert(views(self.names@)[j] == t);
            }
        }
        Ok(())
    }
}

} // verus!
