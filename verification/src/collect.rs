//! The schema collector: it takes the declarations of one module after the
//! other from a queue, checks the names of the declared files, registers
//! the type of every declared entity, and files the entity under the index
//! it keeps for the whole run.

use crate::data::link::reversed;
use crate::error::{Error, ErrorView};
use crate::generator::constant::{ConstantEntry, ConstantSchema};
use crate::generator::enumeration::{EnumerationEntry, EnumerationSchema};
use crate::generator::module::{EntityEntry, ModuleEntry};
use crate::generator::table::{TableEntry, TableSchema};
use crate::generator::{lemma_position_of, position_of, Generator, PendingModule};
use crate::name::{Name, NameView};
use crate::text::{chars_of, same_text, text_of_range, views};
use vstd::prelude::*;
use vstd::string::StringExecFns;

verus! {

/// A declaration of a module, with the schema that the declared file holds.
#[derive(Debug, PartialEq, Eq)]
#[allow(inconsistent_fields)]
pub enum Declared {
    /// A submodule, by the file that lists its declarations.
    Module { file: String },
    /// A table, by its data file and its schema file.
    Table { data_file: String, schema_file: String, schema: TableSchema },
    Enumeration { file: String, schema: EnumerationSchema },
    Constant { file: String, schema: ConstantSchema },
}

/// The text before the first dot and the text after it.
pub open spec fn split_at_dot(s: Seq<char>) -> Option<(Seq<char>, Seq<char>)> {
    match position_of(s, '.') {
        Some(i) => Some((s.take(i), s.skip(i + 1))),
        None => None,
    }
}

/// The base name of a declared file: the name has three segments between
/// dots, of which the second is the tag of the kind and the third is
/// `json`; the first is the base name.
pub open spec fn declared_base(file: Seq<char>, tag: Seq<char>) -> Option<Seq<char>> {
    match split_at_dot(file) {
        None => None,
        Some((base, rest)) => match split_at_dot(rest) {
            None => None,
            Some((kind, last)) => if kind == tag && last == "json"@ {
                Some(base)
            } else {
                None
            },
        },
    }
}

/// The base name of a data file: what stands before its first dot.
pub open spec fn data_base(file: Seq<char>) -> Seq<char> {
    match split_at_dot(file) {
        Some((base, _)) => base,
        None => file,
    }
}

impl Declared {
    /// The name that the declaration gives the entity: the base name of the
    /// declared file. The data file of a table has the same base name as
    /// its schema file.
    pub open spec fn base(self) -> Result<Seq<char>, ErrorView> {
        match self {
            Declared::Module { file } => match declared_base(file@, "mod"@) {
                Some(base) => Ok(base),
                None => Err(ErrorView::InvalidDeclarationFilename(file@)),
            },
            Declared::Table { data_file, schema_file, .. } => match declared_base(
                schema_file@,
                "table"@,
            ) {
                Some(base) => if data_base(data_file@) == base {
                    Ok(base)
                } else {
                    Err(ErrorView::InvalidDeclarationFilename(schema_file@))
                },
                None => Err(ErrorView::InvalidDeclarationFilename(schema_file@)),
            },
            Declared::Enumeration { file, .. } => match declared_base(file@, "enum"@) {
                Some(base) => Ok(base),
                None => Err(ErrorView::InvalidDeclarationFilename(file@)),
            },
            Declared::Constant { file, .. } => match declared_base(file@, "const"@) {
                Some(base) => Ok(base),
                None => Err(ErrorView::InvalidDeclarationFilename(file@)),
            },
        }
    }

    /// The type that the declaration registers in a module of the given
    /// name, if its file name is sound: none for a submodule.
    pub open spec fn registers(self, module: NameView) -> Option<Seq<char>> {
        match self.base() {
            Err(_) => None,
            Ok(base) => if self is Module {
                None
            } else {
                Some(child_of(module, base).type_id(true))
            },
        }
    }
}

/// The name of a child of a module.
pub open spec fn child_of(module: NameView, base: Seq<char>) -> NameView {
    NameView { name: base, namespace: module.namespace.push(base) }
}

/// The types registered once the first `upto` declarations of a module are
/// collected.
pub open spec fn names_after(
    names: Seq<Seq<char>>,
    module: NameView,
    declared: Seq<Declared>,
    upto: nat,
) -> Seq<Seq<char>>
    decreases upto,
{
    if upto == 0 {
        names
    } else {
        match declared[upto - 1].registers(module) {
            Some(t) => names_after(names, module, declared, (upto - 1) as nat).push(t),
            None => names_after(names, module, declared, (upto - 1) as nat),
        }
    }
}

/// The fault of the first of the first `upto` declarations that is at
/// fault: a file name of the wrong shape, or a type that is registered
/// already.
pub open spec fn first_fault(
    names: Seq<Seq<char>>,
    module: NameView,
    declared: Seq<Declared>,
    upto: nat,
) -> Option<ErrorView>
    decreases upto,
{
    if upto == 0 {
        None
    } else {
        match first_fault(names, module, declared, (upto - 1) as nat) {
            Some(e) => Some(e),
            None => match declared[upto - 1].base() {
                Err(e) => Some(e),
                Ok(_) => match declared[upto - 1].registers(module) {
                    Some(t) => if names_after(names, module, declared, (upto - 1) as nat).contains(
                        t,
                    ) {
                        Some(ErrorView::NamespaceCollision(t))
                    } else {
                        None
                    },
                    None => None,
                },
            },
        }
    }
}

/// How many of the first `upto` declarations declare a submodule.
pub open spec fn count_modules(declared: Seq<Declared>, upto: nat) -> nat
    decreases upto,
{
    if upto == 0 {
        0
    } else if declared[upto - 1] is Module {
        count_modules(declared, (upto - 1) as nat) + 1
    } else {
        count_modules(declared, (upto - 1) as nat)
    }
}

/// How many of the first `upto` declarations declare a table.
pub open spec fn count_tables(declared: Seq<Declared>, upto: nat) -> nat
    decreases upto,
{
    if upto == 0 {
        0
    } else if declared[upto - 1] is Table {
        count_tables(declared, (upto - 1) as nat) + 1
    } else {
        count_tables(declared, (upto - 1) as nat)
    }
}

/// How many of the first `upto` declarations declare an enumeration.
pub open spec fn count_enumerations(declared: Seq<Declared>, upto: nat) -> nat
    decreases upto,
{
    if upto == 0 {
        0
    } else if declared[upto - 1] is Enumeration {
        count_enumerations(declared, (upto - 1) as nat) + 1
    } else {
        count_enumerations(declared, (upto - 1) as nat)
    }
}

/// How many of the first `upto` declarations declare a constant.
pub open spec fn count_constants(declared: Seq<Declared>, upto: nat) -> nat
    decreases upto,
{
    if upto == 0 {
        0
    } else if declared[upto - 1] is Constant {
        count_constants(declared, (upto - 1) as nat) + 1
    } else {
        count_constants(declared, (upto - 1) as nat)
    }
}

/// The position of the first declaration that is at fault, where one of the
/// first `upto` is.
pub open spec fn fault_index(
    names: Seq<Seq<char>>,
    module: NameView,
    declared: Seq<Declared>,
    upto: nat,
) -> nat
    decreases upto,
{
    if upto == 0 {
        0
    } else if first_fault(names, module, declared, (upto - 1) as nat) is Some {
        fault_index(names, module, declared, (upto - 1) as nat)
    } else {
        (upto - 1) as nat
    }
}

/// The first fault stays the first fault when more declarations follow.
proof fn lemma_fault_index(
    names: Seq<Seq<char>>,
    module: NameView,
    declared: Seq<Declared>,
    at: nat,
    total: nat,
)
    requires
        at < total,
        first_fault(names, module, declared, at) is None,
        first_fault(names, module, declared, at + 1) is Some,
    ensures
        fault_index(names, module, declared, total) == at,
    decreases total,
{
    if total > at + 1 {
        lemma_first_fault_prefix(names, module, declared, at + 1, (total - 1) as nat);
        lemma_fault_index(names, module, declared, at, (total - 1) as nat);
    }
}

/// The counts never fall, and a declaration counts for its kind.
proof fn lemma_counts_grow(declared: Seq<Declared>, k: nat, n: nat)
    requires
        k <= n,
    ensures
        count_modules(declared, k) <= count_modules(declared, n),
        count_tables(declared, k) <= count_tables(declared, n),
        count_enumerations(declared, k) <= count_enumerations(declared, n),
        count_constants(declared, k) <= count_constants(declared, n),
        k < n && declared[k as int] is Module ==> count_modules(declared, k) < count_modules(
            declared,
            n,
        ),
        k < n && declared[k as int] is Table ==> count_tables(declared, k) < count_tables(
            declared,
            n,
        ),
        k < n && declared[k as int] is Enumeration ==> count_enumerations(declared, k)
            < count_enumerations(declared, n),
        k < n && declared[k as int] is Constant ==> count_constants(declared, k) < count_constants(
            declared,
            n,
        ),
    decreases n - k,
{
    if k < n {
        lemma_counts_grow(declared, k, (n - 1) as nat);
    }
}

proof fn lemma_first_fault_prefix(
    names: Seq<Seq<char>>,
    module: NameView,
    declared: Seq<Declared>,
    upto: nat,
    total: nat,
)
    requires
        upto <= total,
        first_fault(names, module, declared, upto) is Some,
    ensures
        first_fault(names, module, declared, total) == first_fault(names, module, declared, upto),
    decreases total - upto,
{
    if upto < total {
        lemma_first_fault_prefix(names, module, declared, upto + 1, total);
    }
}

/// The position of the first dot of `v` at or after `from`.
fn find_dot(v: &Vec<char>, from: usize) -> (r: Option<usize>)
    requires
        from <= v.len(),
    ensures
        match r {
            Some(i) => from <= i < v.len() && position_of(v@.skip(from as int), '.') == Some(
                i - from,
            ),
            None => position_of(v@.skip(from as int), '.') is None,
        },
{
    let ghost rest = v@.skip(from as int);
    let mut i: usize = from;
    while i < v.len()
        invariant
            from <= i <= v.len(),
            rest == v@.skip(from as int),
            forall|k: int| 0 <= k < i - from ==> rest[k] != '.',
        decreases v.len() - i,
    {
        if v[i] == '.' {
            proof {
                lemma_position_of(rest, '.');
                assert(rest[i - from] == '.');
            }
            return Some(i);
        }
        i += 1;
    }
    proof {
        lemma_position_of(rest, '.');
    }
    None
}

/// The base name of a declared file of the kind with that tag, if the file
/// name has the shape `base.tag.json`.
pub fn declaration_name(file: &str, tag: &str) -> (r: Option<String>)
    ensures
        match r {
            Some(base) => declared_base(file@, tag@) == Some(base@),
            None => declared_base(file@, tag@) is None,
        },
{
    let v = chars_of(file);
    assert(v@.skip(0) == v@);
    let first = match find_dot(&v, 0) {
        None => {
            return None;
        },
        Some(i) => i,
    };
    let ghost rest = v@.skip(first + 1);
    let second = match find_dot(&v, first + 1) {
        None => {
            return None;
        },
        Some(i) => i,
    };
    let kind = text_of_range(&v, first + 1, second);
    let last = text_of_range(&v, second + 1, v.len());
    proof {
        assert(v@.subrange(first + 1, second as int) == rest.take(second - first - 1));
        assert(v@.subrange(second + 1, v.len() as int) == rest.skip(second - first));
    }
    if same_text(kind.as_str(), tag) && same_text(last.as_str(), "json") {
        let base = text_of_range(&v, 0, first);
        assert(v@.subrange(0, first as int) == v@.take(first as int));
        Some(base)
    } else {
        None
    }
}

/// The base name of a data file.
pub fn data_file_base(file: &str) -> (r: String)
    ensures
        r@ == data_base(file@),
{
    let v = chars_of(file);
    assert(v@.skip(0) == v@);
    match find_dot(&v, 0) {
        None => String::from_str(file),
        Some(i) => {
            assert(v@.subrange(0, i as int) == v@.take(i as int));
            text_of_range(&v, 0, i)
        },
    }
}

impl Declared {
    /// The name that the declaration gives the entity.
    pub fn base_name(&self) -> (r: Result<String, Error>)
        ensures
            match r {
                Ok(base) => self.base() == Ok::<Seq<char>, ErrorView>(base@),
                Err(e) => self.base() == Err::<Seq<char>, ErrorView>(e@),
            },
    {
        match self {
            Declared::Module { file } => match declaration_name(file.as_str(), "mod") {
                Some(base) => Ok(base),
                None => Err(Error::InvalidDeclarationFilename(file.clone())),
            },
            Declared::Table { data_file, schema_file, .. } => match declaration_name(
                schema_file.as_str(),
                "table",
            ) {
                Some(base) => {
                    let data = data_file_base(data_file.as_str());
                    if same_text(data.as_str(), base.as_str()) {
                        Ok(base)
                    } else {
                        Err(Error::InvalidDeclarationFilename(schema_file.clone()))
                    }
                },
                None => Err(Error::InvalidDeclarationFilename(schema_file.clone())),
            },
            Declared::Enumeration { file, .. } => match declaration_name(file.as_str(), "enum") {
                Some(base) => Ok(base),
                None => Err(Error::InvalidDeclarationFilename(file.clone())),
            },
            Declared::Constant { file, .. } => match declaration_name(file.as_str(), "const") {
                Some(base) => Ok(base),
                None => Err(Error::InvalidDeclarationFilename(file.clone())),
            },
        }
    }
}

impl Generator {
    /// Puts the root module, whose declarations `source` lists, into the
    /// queue of a run that has collected nothing yet.
    pub fn begin(&mut self, source: &str)
        requires
            old(self).wf(),
        ensures
            final(self).wf(),
            final(self).pending@.len() == old(self).pending@.len() + 1,
            final(self).pending@.last().source@ == source@,
            final(self).pending@.last().module.name@ == (NameView {
                name: Seq::empty(),
                namespace: Seq::empty(),
            }),
            final(self).pending@.last().module.entries@.len() == 0,
            final(self).pending@.drop_last() == old(self).pending@,
            final(self).config == old(self).config,
            final(self).modules == old(self).modules,
            final(self).tables == old(self).tables,
            final(self).enumerations == old(self).enumerations,
            final(self).constants == old(self).constants,
            final(self).names == old(self).names,
            final(self).table_indices == old(self).table_indices,
            final(self).enumeration_indices == old(self).enumeration_indices,
            final(self).table_hierarchies == old(self).table_hierarchies,
    {
        let name = Name::new("", Vec::new());
        proof {
            reveal_strlit("");
            assert(name.name@ =~= Seq::<char>::empty());
            assert(views(name.namespace@) =~= Seq::<Seq<char>>::empty());
        }
        self.pending.push(PendingModule { module: ModuleEntry::new(name), source: String::from_str(
            source,
        ) });
    }

    /// The module whose declarations are to be collected next, with the
    /// file that lists them.
    pub fn next_module(&self) -> (r: Option<&PendingModule>)
        ensures
            match r {
                Some(p) => self.pending@.len() > 0 && *p == self.pending@[0],
                None => self.pending@.len() == 0,
            },
    {
        if self.pending.len() > 0 {
            Some(&self.pending[0])
        } else {
            None
        }
    }

    /// Registers the type of a table and files the table.
    pub fn collect_table(&mut self, module: &mut ModuleEntry, name: Name, schema: TableSchema) -> (r:
        Result<(), Error>)
        requires
            old(self).wf(),
        ensures
            final(self).wf(),
            final(module).name == old(module).name,
            final(self).config == old(self).config,
            final(self).modules == old(self).modules,
            final(self).enumerations == old(self).enumerations,
            final(self).constants == old(self).constants,
            final(self).enumeration_indices == old(self).enumeration_indices,
            final(self).table_hierarchies == old(self).table_hierarchies,
            final(self).pending == old(self).pending,
            match r {
                Ok(_) => {
                    &&& !old(self).is_registered(name@.type_id(true))
                    &&& views(final(self).names@) == views(old(self).names@).push(
                        name@.type_id(true),
                    )
                    &&& final(self).tables@ == old(self).tables@.push(TableEntry { name, schema })
                    &&& views(final(self).table_indices@) == views(old(self).table_indices@).push(
                        name@.type_id(true),
                    )
                    &&& final(module).entries@ == old(module).entries@.push(
                        EntityEntry::TableIndex(old(self).tables@.len() as usize),
                    )
                },
                Err(e) => {
                    &&& old(self).is_registered(name@.type_id(true))
                    &&& e@ == ErrorView::NamespaceCollision(name@.type_id(true))
                    &&& *final(self) == *old(self)
                    &&& *final(module) == *old(module)
                },
            },
    {
        let type_ident = name.as_type(true);
        match self.register_type(type_ident.as_str()) {
            Err(e) => {
                return Err(e);
            },
            Ok(_) => {},
        }
        let ghost before = *self;
        let index = self.tables.len();
        self.tables.push(TableEntry { name, schema });
        self.table_indices.push(type_ident);
        module.entries.push(EntityEntry::TableIndex(index));
        proof {
            let t = name@.type_id(true);
            assert(views(self.table_indices@) =~= views(before.table_indices@).push(t));
            assert(views(self.names@) =~= views(old(self).names@).push(t));
            assert forall|i: int| 0 <= i < self.table_indices.len() implies self.is_registered(
                #[trigger] self.table_indices[i]@,
            ) by {
                if i < before.table_indices.len() {
                    assert(before.is_registered(before.table_indices[i]@));
                } else {
                    assert(views(self.names@).last() == t);
                }
            }
            assert(views(self.table_indices@).no_duplicates()) by {
                assert forall|i: int, j: int|
                    0 <= i < self.table_indices.len() && 0 <= j < self.table_indices.len() && i
                        != j implies views(self.table_indices@)[i] != views(
                    self.table_indices@,
                )[j] by {
                    let old_types = views(before.table_indices@);
                    if i < old_types.len() && j < old_types.len() {
                        assert(old_types[i] != old_types[j]);
                    } else if i < old_types.len() {
                        assert(old(self).is_registered(old(self).table_indices[i]@));
                    } else {
                        assert(old(self).is_registered(old(self).table_indices[j]@));
                    }
                }
            }
        }
        Ok(())
    }

    /// Registers the type of an enumeration and files the enumeration.
    pub fn collect_enumeration(
        &mut self,
        module: &mut ModuleEntry,
        name: Name,
        schema: EnumerationSchema,
    ) -> (r: Result<(), Error>)
        requires
            old(self).wf(),
        ensures
            final(self).wf(),
            final(module).name == old(module).name,
            final(self).config == old(self).config,
            final(self).modules == old(self).modules,
            final(self).tables == old(self).tables,
            final(self).constants == old(self).constants,
            final(self).table_indices == old(self).table_indices,
            final(self).table_hierarchies == old(self).table_hierarchies,
            final(self).pending == old(self).pending,
            match r {
                Ok(_) => {
                    &&& !old(self).is_registered(name@.type_id(true))
                    &&& views(final(self).names@) == views(old(self).names@).push(
                        name@.type_id(true),
                    )
                    &&& final(self).enumerations@ == old(self).enumerations@.push(
                        EnumerationEntry { name, schema },
                    )
                    &&& views(final(self).enumeration_indices@) == views(
                        old(self).enumeration_indices@,
                    ).push(name@.type_id(true))
                    &&& final(module).entries@ == old(module).entries@.push(
                        EntityEntry::EnumerationIndex(old(self).enumerations@.len() as usize),
                    )
                },
                Err(e) => {
                    &&& old(self).is_registered(name@.type_id(true))
                    &&& e@ == ErrorView::NamespaceCollision(name@.type_id(true))
                    &&& *final(self) == *old(self)
                    &&& *final(module) == *old(module)
                },
            },
    {
        let type_ident = name.as_type(true);
        match self.register_type(type_ident.as_str()) {
            Err(e) => {
                return Err(e);
            },
            Ok(_) => {},
        }
        let ghost before = *self;
        let index = self.enumerations.len();
        self.enumerations.push(EnumerationEntry { name, schema });
        self.enumeration_indices.push(type_ident);
        module.entries.push(EntityEntry::EnumerationIndex(index));
        proof {
            let t = name@.type_id(true);
            assert(views(self.enumeration_indices@) =~= views(before.enumeration_indices@).push(t));
            assert(views(self.names@) =~= views(old(self).names@).push(t));
            assert forall|i: int| 0 <= i < self.table_indices.len() implies self.is_registered(
                #[trigger] self.table_indices[i]@,
            ) by {
                assert(before.is_registered(before.table_indices[i]@));
            }
        }
        Ok(())
    }

    /// Registers the type of a constant and files the constant.
    pub fn collect_constant(
        &mut self,
        module: &mut ModuleEntry,
        name: Name,
        schema: ConstantSchema,
    ) -> (r: Result<(), Error>)
        requires
            old(self).wf(),
        ensures
            final(self).wf(),
            final(module).name == old(module).name,
            final(self).config == old(self).config,
            final(self).modules == old(self).modules,
            final(self).tables == old(self).tables,
            final(self).enumerations == old(self).enumerations,
            final(self).table_indices == old(self).table_indices,
            final(self).enumeration_indices == old(self).enumeration_indices,
            final(self).table_hierarchies == old(self).table_hierarchies,
            final(self).pending == old(self).pending,
            match r {
                Ok(_) => {
                    &&& !old(self).is_registered(name@.type_id(true))
                    &&& views(final(self).names@) == views(old(self).names@).push(
                        name@.type_id(true),
                    )
                    &&& final(self).constants@ == old(self).constants@.push(
                        ConstantEntry { name, schema },
                    )
                    &&& final(module).entries@ == old(module).entries@.push(
                        EntityEntry::ConstantIndex(old(self).constants@.len() as usize),
                    )
                },
                Err(e) => {
                    &&& old(self).is_registered(name@.type_id(true))
                    &&& e@ == ErrorView::NamespaceCollision(name@.type_id(true))
                    &&& *final(self) == *old(self)
                    &&& *final(module) == *old(module)
                },
            },
    {
        let type_ident = name.as_type(true);
        match self.register_type(type_ident.as_str()) {
            Err(e) => {
                return Err(e);
            },
            Ok(_) => {},
        }
        let ghost before = *self;
        let index = self.constants.len();
        self.constants.push(ConstantEntry { name, schema });
        module.entries.push(EntityEntry::ConstantIndex(index));
        proof {
            let t = name@.type_id(true);
            assert(views(self.names@) =~= views(old(self).names@).push(t));
            assert forall|i: int| 0 <= i < self.table_indices.len() implies self.is_registered(
                #[trigger] self.table_indices[i]@,
            ) by {
                assert(before.is_registered(before.table_indices[i]@));
            }
        }
        Ok(())
    }
}

/// The entry that declaration `k` of a module is filed under, in a run that
/// held `modules` modules, collected and queued, and `tables`,
/// `enumerations` and `constants` entities when the module was taken from
/// the queue: each entity gets the next index of its kind.
pub open spec fn entry_of(
    declared: Seq<Declared>,
    k: int,
    modules: nat,
    tables: nat,
    enumerations: nat,
    constants: nat,
) -> EntityEntry {
    match declared[k] {
        Declared::Module { .. } => EntityEntry::ModuleIndex(
            (modules + count_modules(declared, k as nat)) as usize,
        ),
        Declared::Table { .. } => EntityEntry::TableIndex(
            (tables + count_tables(declared, k as nat)) as usize,
        ),
        Declared::Enumeration { .. } => EntityEntry::EnumerationIndex(
            (enumerations + count_enumerations(declared, k as nat)) as usize,
        ),
        Declared::Constant { .. } => EntityEntry::ConstantIndex(
            (constants + count_constants(declared, k as nat)) as usize,
        ),
    }
}

/// Declaration `k` of the module `module` is filed in `now`, which held
/// what `before` holds when the module was taken from the queue: the
/// declared entity stands in the registry of its kind under the index of
/// its entry, with its schema and under the name of a child of the module;
/// a submodule waits in the queue.
pub open spec fn filed(
    now: Generator,
    before: Generator,
    module: NameView,
    declared: Seq<Declared>,
    k: int,
) -> bool {
    match declared[k] {
        Declared::Module { file } => {
            let at = before.pending@.len() - 1 + count_modules(declared, k as nat);
            &&& 0 <= at < now.pending@.len()
            &&& now.pending@[at].source@ == file@
            &&& now.pending@[at].module.name@ == child_of(module, declared[k].base()->Ok_0)
            &&& now.pending@[at].module.entries@.len() == 0
        },
        Declared::Table { schema, .. } => {
            let at = (before.tables@.len() + count_tables(declared, k as nat)) as int;
            &&& at < now.tables@.len()
            &&& now.tables@[at].schema == schema
            &&& now.tables@[at].name@ == child_of(module, declared[k].base()->Ok_0)
        },
        Declared::Enumeration { schema, .. } => {
            let at = (before.enumerations@.len() + count_enumerations(declared, k as nat)) as int;
            &&& at < now.enumerations@.len()
            &&& now.enumerations@[at].schema == schema
            &&& now.enumerations@[at].name@ == child_of(module, declared[k].base()->Ok_0)
        },
        Declared::Constant { schema, .. } => {
            let at = (before.constants@.len() + count_constants(declared, k as nat)) as int;
            &&& at < now.constants@.len()
            &&& now.constants@[at].schema == schema
            &&& now.constants@[at].name@ == child_of(module, declared[k].base()->Ok_0)
        },
    }
}

impl Generator {
    /// Collects the declarations of the module at the front of the queue:
    /// every declared entity is checked, registered and filed, every
    /// submodule is put at the end of the queue, and the module itself is
    /// filed with one entry for each declaration. Fails at the first
    /// declaration whose file name has the wrong shape or whose type is
    /// registered already.
    pub fn collect_module(&mut self, declared: Vec<Declared>) -> (r: Result<(), Error>)
        requires
            old(self).wf(),
            old(self).pending@.len() > 0,
            old(self).modules@.len() + old(self).pending@.len() + declared@.len() <= usize::MAX,
        ensures
            final(self).wf(),
            final(self).config == old(self).config,
            final(self).table_hierarchies == old(self).table_hierarchies,
            r is Ok && old(self).modules_wf() ==> final(self).modules_wf(),
            match r {
                Err(e) => {
                    let module = old(self).pending@[0].module.name@;
                    let names = views(old(self).names@);
                    let n = declared@.len();
                    let k = fault_index(names, module, declared@, n);
                    &&& first_fault(names, module, declared@, n) == Some(e@)
                    &&& k < n
                    &&& first_fault(names, module, declared@, k) is None
                    &&& first_fault(names, module, declared@, k + 1) == Some(e@)
                    &&& views(final(self).names@) == names_after(names, module, declared@, k)
                    &&& final(self).modules == old(self).modules
                    &&& forall|j: int|
                        0 <= j < k ==> #[trigger] filed(*final(self), *old(self), module, declared@, j)
                    &&& final(self).pending@.len() == old(self).pending@.len() - 1 + count_modules(
                        declared@,
                        k,
                    )
                    &&& forall|j: int|
                        1 <= j < old(self).pending@.len() ==> final(self).pending@[j - 1] == old(
                            self,
                        ).pending@[j]
                    &&& final(self).tables@.len() == old(self).tables@.len() + count_tables(
                        declared@,
                        k,
                    )
                    &&& final(self).enumerations@.len() == old(self).enumerations@.len()
                        + count_enumerations(declared@, k)
                    &&& final(self).constants@.len() == old(self).constants@.len()
                        + count_constants(declared@, k)
                    &&& final(self).tables@.take(old(self).tables@.len() as int) == old(
                        self,
                    ).tables@
                    &&& final(self).enumerations@.take(old(self).enumerations@.len() as int)
                        == old(self).enumerations@
                    &&& final(self).constants@.take(old(self).constants@.len() as int) == old(
                        self,
                    ).constants@
                },
                Ok(_) => {
                    let module = old(self).pending@[0].module.name@;
                    let n = declared@.len();
                    &&& first_fault(views(old(self).names@), module, declared@, n) is None
                    &&& views(final(self).names@) == names_after(
                        views(old(self).names@),
                        module,
                        declared@,
                        n,
                    )
                    &&& final(self).modules@.len() == old(self).modules@.len() + 1
                    &&& final(self).modules@.last().name == old(self).pending@[0].module.name
                    &&& final(self).modules@.drop_last() == old(self).modules@
                    &&& final(self).modules@.last().entries@.len() == n
                    &&& forall|k: int|
                        0 <= k < n ==> #[trigger] final(self).modules@.last().entries@[k]
                            == entry_of(
                            declared@,
                            k,
                            old(self).modules@.len() + old(self).pending@.len(),
                            old(self).tables@.len(),
                            old(self).enumerations@.len(),
                            old(self).constants@.len(),
                        )
                    &&& forall|k: int|
                        0 <= k < n ==> #[trigger] filed(*final(self), *old(self), module, declared@, k)
                    &&& final(self).pending@.len() == old(self).pending@.len() - 1 + count_modules(
                        declared@,
                        n,
                    )
                    &&& forall|j: int|
                        1 <= j < old(self).pending@.len() ==> final(self).pending@[j - 1] == old(
                            self,
                        ).pending@[j]
                    &&& final(self).tables@.len() == old(self).tables@.len() + count_tables(
                        declared@,
                        n,
                    )
                    &&& final(self).enumerations@.len() == old(self).enumerations@.len()
                        + count_enumerations(declared@, n)
                    &&& final(self).constants@.len() == old(self).constants@.len()
                        + count_constants(declared@, n)
                    &&& final(self).tables@.take(old(self).tables@.len() as int) == old(
                        self,
                    ).tables@
                    &&& final(self).enumerations@.take(old(self).enumerations@.len() as int)
                        == old(self).enumerations@
                    &&& final(self).constants@.take(old(self).constants@.len() as int) == old(
                        self,
                    ).constants@
                },
            },
    {
        let ghost all = declared@;
        let ghost start = *self;
        let ghost names = views(self.names@);
        let total = declared.len();
        let first_child = self.modules.len() + self.pending.len();
        let mut rest = reversed(declared);
        let taken = self.pending.remove(0);
        let mut module = taken.module;
        let ghost module_name = module.name@;
        let mut children: usize = 0;
        let mut i: usize = 0;
        proof {
            assert(self.tables@.take(start.tables@.len() as int) =~= start.tables@);
            assert(self.enumerations@.take(start.enumerations@.len() as int)
                =~= start.enumerations@);
            assert(self.constants@.take(start.constants@.len() as int) =~= start.constants@);
        }
        while i < total
            invariant
                i <= total,
                total == all.len(),
                all == declared@,
                children <= i,
                i + rest@.len() == total,
                forall|k: int| 0 <= k < rest@.len() ==> #[trigger] rest@[k] == all[total - 1 - k],
                self.wf(),
                start.wf(),
                start == *old(self),
                names == views(start.names@),
                module_name == start.pending@[0].module.name@,
                module.name == start.pending@[0].module.name,
                first_child == start.modules@.len() + start.pending@.len(),
                first_child + total <= usize::MAX,
                start.pending@.len() > 0,
                self.config == start.config,
                self.table_hierarchies == start.table_hierarchies,
                self.modules == start.modules,
                children == count_modules(all, i as nat),
                first_fault(names, module_name, all, i as nat) is None,
                views(self.names@) == names_after(names, module_name, all, i as nat),
                module.entries@.len() == i,
                forall|k: int|
                    0 <= k < i ==> #[trigger] module.entries@[k] == entry_of(
                        all,
                        k,
                        first_child as nat,
                        start.tables@.len(),
                        start.enumerations@.len(),
                        start.constants@.len(),
                    ),
                forall|k: int| 0 <= k < i ==> #[trigger] filed(*self, start, module_name, all, k),
                self.pending@.len() == start.pending@.len() - 1 + count_modules(all, i as nat),
                forall|j: int|
                    1 <= j < start.pending@.len() ==> self.pending@[j - 1] == start.pending@[j],
                self.tables@.len() == start.tables@.len() + count_tables(all, i as nat),
                self.enumerations@.len() == start.enumerations@.len() + count_enumerations(
                    all,
                    i as nat,
                ),
                self.constants@.len() == start.constants@.len() + count_constants(all, i as nat),
                self.tables@.take(start.tables@.len() as int) == start.tables@,
                self.enumerations@.take(start.enumerations@.len() as int) == start.enumerations@,
                self.constants@.take(start.constants@.len() as int) == start.constants@,
            decreases total - i,
        {
            let item = rest.pop().unwrap();
            let ghost prev = *self;
            proof {
                assert(item == all[i as int]);
            }
            let base = match item.base_name() {
                Err(e) => {
                    proof {
                        assert(first_fault(names, module_name, all, (i + 1) as nat) == Some(e@));
                        lemma_first_fault_prefix(
                            names,
                            module_name,
                            all,
                            (i + 1) as nat,
                            total as nat,
                        );
                        lemma_fault_index(names, module_name, all, i as nat, total as nat);
                    }
                    return Err(e);
                },
                Ok(base) => base,
            };
            let name = module.name.get_child(base.as_str());
            proof {
                assert(name@ == child_of(module_name, base@));
            }
            let outcome = match item {
                Declared::Module { file } => {
                    module.entries.push(EntityEntry::ModuleIndex(first_child + children));
                    children = children + 1;
                    self.pending.push(PendingModule { module: ModuleEntry::new(name), source: file });
                    Ok(())
                },
                Declared::Table { schema, .. } => self.collect_table(&mut module, name, schema),
                Declared::Enumeration { schema, .. } => self.collect_enumeration(
                    &mut module,
                    name,
                    schema,
                ),
                Declared::Constant { schema, .. } => self.collect_constant(
                    &mut module,
                    name,
                    schema,
                ),
            };
            match outcome {
                Err(e) => {
                    proof {
                        assert(all[i as int].registers(module_name) == Some(name@.type_id(true)));
                        assert(first_fault(names, module_name, all, (i + 1) as nat) == Some(e@));
                        lemma_first_fault_prefix(
                            names,
                            module_name,
                            all,
                            (i + 1) as nat,
                            total as nat,
                        );
                        lemma_fault_index(names, module_name, all, i as nat, total as nat);
                        assert(*self == prev);
                    }
                    return Err(e);
                },
                Ok(_) => {},
            }
            proof {
                assert forall|k: int| 0 <= k < i + 1 implies #[trigger] filed(
                    *self,
                    start,
                    module_name,
                    all,
                    k,
                ) by {
                    if k < i {
                        assert(filed(prev, start, module_name, all, k));
                    }
                }
                assert(self.tables@.take(start.tables@.len() as int) =~= prev.tables@.take(
                    start.tables@.len() as int,
                ));
                assert(self.enumerations@.take(start.enumerations@.len() as int)
                    =~= prev.enumerations@.take(start.enumerations@.len() as int));
                assert(self.constants@.take(start.constants@.len() as int)
                    =~= prev.constants@.take(start.constants@.len() as int));
            }
            i += 1;
        }
        let ghost filled = *self;
        self.modules.push(module);
        proof {
            assert(self.modules@.drop_last() == start.modules@);
            assert forall|k: int| 0 <= k < total implies #[trigger] filed(
                *self,
                start,
                module_name,
                all,
                k,
            ) by {
                assert(filed(filled, start, module_name, all, k));
            }
            if start.modules_wf() {
                assert forall|a: int, k: int|
                    0 <= a < self.modules@.len() && 0 <= k < self.modules@[a].entries@.len()
                        implies match #[trigger] self.modules@[a].entries@[k] {
                    EntityEntry::ModuleIndex(i) => i < self.modules@.len() + self.pending@.len(),
                    EntityEntry::TableIndex(i) => i < self.tables@.len(),
                    EntityEntry::EnumerationIndex(i) => i < self.enumerations@.len(),
                    EntityEntry::ConstantIndex(i) => i < self.constants@.len(),
                } by {
                    if a < start.modules@.len() {
                        assert(self.modules@[a] == start.modules@[a]);
                        let entry = start.modules@[a].entries@[k];
                        assert(match entry {
                            EntityEntry::ModuleIndex(i) => i < start.modules@.len()
                                + start.pending@.len(),
                            EntityEntry::TableIndex(i) => i < start.tables@.len(),
                            EntityEntry::EnumerationIndex(i) => i < start.enumerations@.len(),
                            EntityEntry::ConstantIndex(i) => i < start.constants@.len(),
                        });
                    } else {
                        lemma_counts_grow(all, k as nat, total as nat);
                        assert(self.modules@[a].entries@[k] == entry_of(
                            all,
                            k,
                            first_child as nat,
                            start.tables@.len(),
                            start.enumerations@.len(),
                            start.constants@.len(),
                        ));
                    }
                }
            }
        }
        Ok(())
    }
}

/// Two entities of one name in one namespace have one type: the second
/// cannot be registered. Where `first` of the declarations of a module
/// registers a type and a later one, `second`, registers the same type,
/// collecting the module fails, by a collision of namespaces unless an
/// earlier fault comes first.
pub proof fn law_same_type_collides(
    names: Seq<Seq<char>>,
    module: NameView,
    declared: Seq<Declared>,
    first: int,
    second: int,
)
    requires
        0 <= first < second < declared.len(),
        declared[first].registers(module) is Some,
        declared[second].registers(module) == declared[first].registers(module),
    ensures
        first_fault(names, module, declared, declared.len()) is Some,
        first_fault(names, module, declared, second as nat) is None ==> first_fault(
            names,
            module,
            declared,
            declared.len(),
        ) == Some(ErrorView::NamespaceCollision(declared[first].registers(module)->0)),
{
    let t = declared[first].registers(module)->0;
    lemma_names_grow(names, module, declared, (first + 1) as nat, second as nat);
    assert(names_after(names, module, declared, (first + 1) as nat).last() == t);
    assert(names_after(names, module, declared, second as nat).contains(t));
    if first_fault(names, module, declared, second as nat) is None {
        assert(first_fault(names, module, declared, (second + 1) as nat) == Some(
            ErrorView::NamespaceCollision(t),
        ));
        lemma_first_fault_prefix(names, module, declared, (second + 1) as nat, declared.len());
    } else {
        lemma_first_fault_prefix(names, module, declared, second as nat, declared.len());
    }
}

/// The types registered are never taken back.
proof fn lemma_names_grow(
    names: Seq<Seq<char>>,
    module: NameView,
    declared: Seq<Declared>,
    upto: nat,
    later: nat,
)
    requires
        upto <= later,
    ensures
        forall|t: Seq<char>|
            names_after(names, module, declared, upto).contains(t) ==> #[trigger] names_after(
                names,
                module,
                declared,
                later,
            ).contains(t),
    decreases later - upto,
{
    if upto < later {
        lemma_names_grow(names, module, declared, upto, (later - 1) as nat);
        let before = names_after(names, module, declared, (later - 1) as nat);
        let after = names_after(names, module, declared, later);
        assert forall|t: Seq<char>|
            names_after(names, module, declared, upto).contains(t) implies #[trigger] after.contains(
            t,
        ) by {
            assert(before.contains(t));
            let j = choose|j: int| 0 <= j < before.len() && before[j] == t;
            assert(after[j] == t);
        }
    }
}

/// A type that is not registered yet can be registered: a declaration whose
/// file name is sound and whose type differs from every type registered
/// before it is no fault.
pub proof fn law_fresh_type_is_no_fault(
    names: Seq<Seq<char>>,
    module: NameView,
    declared: Seq<Declared>,
    upto: nat,
)
    requires
        0 < upto <= declared.len(),
        first_fault(names, module, declared, (upto - 1) as nat) is None,
        declared[upto - 1].base() is Ok,
        declared[upto - 1].registers(module) matches Some(t) ==> !names_after(
            names,
            module,
            declared,
            (upto - 1) as nat,
        ).contains(t),
    ensures
        first_fault(names, module, declared, upto) is None,
{
}

} // verus!
