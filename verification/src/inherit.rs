//! The inheritance resolver: the effective fields of a table, which are the
//! fields of its ancestors followed by its own, and the map from each table
//! to the tables that extend it.

use crate::error::{Error, ErrorView};
use crate::generator::table::{Field, TableSchema, TableSchematic};
use crate::generator::Generator;
use vstd::prelude::*;
use vstd::string::StringExecFns;

verus! {

/// Why the fields of the ancestors cannot be had.
pub enum InheritFault {
    /// The named type is extended but is no registered table.
    Unknown(Seq<char>),
    /// The chain of ancestors is longer than there are tables.
    Cycle,
}

impl Generator {
    /// The fields that a table which extends `extend` inherits: those of the
    /// farthest ancestor first. At most `fuel` ancestors are walked.
    pub open spec fn inherited_fields(&self, extend: Option<String>, fuel: nat) -> Result<
        Seq<Field>,
        InheritFault,
    >
        decreases fuel,
    {
        match extend {
            None => Ok(Seq::empty()),
            Some(p) => match self.spec_table_index(p@) {
                None => Err(InheritFault::Unknown(p@)),
                Some(i) => if fuel == 0 {
                    Err(InheritFault::Cycle)
                } else {
                    match self.inherited_fields(
                        self.tables[i].schema.spec_extend(),
                        (fuel - 1) as nat,
                    ) {
                        Ok(fs) => Ok(fs + self.tables[i].schema.spec_fields()@),
                        Err(e) => Err(e),
                    }
                },
            },
        }
    }

    /// The effective fields of a table: what it inherits, then its own
    /// fields. A chain of ancestors that does not end within as many steps
    /// as there are tables runs in a circle.
    pub open spec fn all_fields(&self, schema: TableSchema) -> Result<Seq<Field>, ErrorView> {
        match self.inherited_fields(schema.spec_extend(), self.tables@.len()) {
            Ok(fs) => Ok(fs + schema.spec_fields()@),
            Err(InheritFault::Unknown(p)) => Err(
                ErrorView::UnknownParent { table: schema.spec_name(), parent: p },
            ),
            Err(InheritFault::Cycle) => Err(ErrorView::CircularInheritance(schema.spec_name())),
        }
    }

    /// The own fields of the tables of `chain`, those of the last table
    /// first.
    pub open spec fn chain_fields(&self, chain: Seq<usize>) -> Seq<Field>
        decreases chain.len(),
    {
        if chain.len() == 0 {
            Seq::empty()
        } else {
            self.tables[chain.last() as int].schema.spec_fields()@ + self.chain_fields(
                chain.drop_last(),
            )
        }
    }

    /// The effective fields of a table: the fields of its ancestors, from the
    /// farthest to the nearest, followed by its own.
    pub fn get_table_all_fields<'a>(&'a self, schema: &'a TableSchema) -> (r: Result<
        Vec<&'a Field>,
        Error,
    >)
        requires
            self.wf(),
        ensures
            match r {
                Ok(fields) => self.all_fields(*schema) == Ok::<Seq<Field>, ErrorView>(
                    fields@.map_values(|f: &Field| *f),
                ),
                Err(e) => self.all_fields(*schema) == Err::<Seq<Field>, ErrorView>(e@),
            },
    {
        // The ancestors, nearest first.
        let mut chain: Vec<usize> = Vec::new();
        let mut extend: &Option<String> = schema.extend();
        let ghost total = self.tables@.len();
        loop
            invariant
                self.wf(),
                total == self.tables@.len(),
                chain.len() <= total,
                forall|k: int| 0 <= k < chain.len() ==> chain[k] < self.tables.len(),
                self.inherited_fields(schema.spec_extend(), total) == (match self.inherited_fields(
                    *extend,
                    (total - chain.len()) as nat,
                ) {
                    Ok(fs) => Ok::<Seq<Field>, InheritFault>(fs + self.chain_fields(chain@)),
                    Err(e) => Err(e),
                }),
            ensures
                *extend is None,
            decreases total - chain.len(),
        {
            let parent: &String = match extend {
                None => {
                    break ;
                },
                Some(parent) => parent,
            };
            let index = match self.table_index(parent.as_str()) {
                None => {
                    return Err(
                        Error::UnknownParent {
                            table: String::from_str(schema.name()),
                            parent: parent.clone(),
                        },
                    );
                },
                Some(index) => index,
            };
            if chain.len() >= self.tables.len() {
                return Err(Error::CircularInheritance(String::from_str(schema.name())));
            }
            proof {
                crate::generator::lemma_position_of(
                    crate::text::views(self.table_indices@),
                    parent@,
                );
                let next = chain@.push(index);
                assert(next.drop_last() == chain@);
                let up = self.inherited_fields(
                    self.tables[index as int].schema.spec_extend(),
                    (total - chain.len() - 1) as nat,
                );
                if up is Ok {
                    assert((up->Ok_0 + self.tables[index as int].schema.spec_fields()@)
                        + self.chain_fields(chain@) == up->Ok_0 + self.chain_fields(next));
                }
            }
            chain.push(index);
            extend = self.tables[index].schema.extend();
        }
        let mut fields: Vec<&'a Field> = Vec::new();
        let mut k: usize = chain.len();
        proof {
            assert(chain@.take(chain.len() as int) == chain@);
            assert(fields@.map_values(|f: &Field| *f) + self.chain_fields(chain@)
                =~= self.chain_fields(chain@));
        }
        while k > 0
            invariant
                k <= chain.len(),
                forall|j: int| 0 <= j < chain.len() ==> chain[j] < self.tables.len(),
                fields@.map_values(|f: &Field| *f) + self.chain_fields(chain@.take(k as int))
                    == self.chain_fields(chain@),
            decreases k,
        {
            k -= 1;
            let own = self.tables[chain[k]].schema.fields();
            let ghost before = fields@.map_values(|f: &Field| *f);
            let mut j: usize = 0;
            while j < own.len()
                invariant
                    j <= own.len(),
                    fields@.map_values(|f: &Field| *f) == before + own@.take(j as int),
                decreases own.len() - j,
            {
                let ghost so_far = fields@;
                fields.push(&own[j]);
                assert(fields@.map_values(|f: &Field| *f) =~= so_far.map_values(|f: &Field| *f).push(
                    own@[j as int],
                ));
                assert(own@.take(j + 1) == own@.take(j as int).push(own@[j as int]));
                j += 1;
            }
            proof {
                assert(own@.take(own.len() as int) == own@);
                let longer = chain@.take(k + 1);
                assert(longer.drop_last() == chain@.take(k as int));
                assert(longer.last() == chain@[k as int]);
                assert(self.chain_fields(longer) == own@ + self.chain_fields(chain@.take(k as int)));
                assert(chain@.take(chain.len() as int) == chain@);
            }
        }
        let own = schema.fields();
        let ghost before = fields@.map_values(|f: &Field| *f);
        let mut j: usize = 0;
        while j < own.len()
            invariant
                j <= own.len(),
                fields@.map_values(|f: &Field| *f) == before + own@.take(j as int),
            decreases own.len() - j,
        {
            let ghost so_far = fields@;
            fields.push(&own[j]);
            assert(fields@.map_values(|f: &Field| *f) =~= so_far.map_values(|f: &Field| *f).push(
                own@[j as int],
            ));
            assert(own@.take(j + 1) == own@.take(j as int).push(own@[j as int]));
            j += 1;
        }
        proof {
            assert(own@.take(own.len() as int) == own@);
            assert(self.chain_fields(chain@.take(0)) == Seq::<Field>::empty());
            assert(before + Seq::<Field>::empty() == before);
        }
        Ok(fields)
    }
}

impl Generator {
    /// The index of the table that table `i` extends, if it extends a
    /// registered table.
    pub open spec fn parent_index(&self, i: int) -> Option<int> {
        match self.tables[i].schema.spec_extend() {
            None => None,
            Some(p) => self.spec_table_index(p@),
        }
    }

    /// Whether table `i` extends a type that is no registered table.
    pub open spec fn parent_unknown(&self, i: int) -> bool {
        self.tables[i].schema.spec_extend() is Some && self.parent_index(i) is None
    }

    /// Among the first `n` tables, those that extend table `p` directly, in
    /// the order of their indices.
    pub open spec fn children_upto(&self, p: int, n: nat) -> Seq<usize>
        decreases n,
    {
        if n == 0 {
            Seq::empty()
        } else if self.parent_index(n - 1) == Some(p) {
            self.children_upto(p, (n - 1) as nat).push((n - 1) as usize)
        } else {
            self.children_upto(p, (n - 1) as nat)
        }
    }

    /// The tables that extend table `p` directly, in the order of their
    /// indices.
    pub open spec fn children_of(&self, p: int) -> Seq<usize> {
        self.children_upto(p, self.tables@.len())
    }

    /// Builds the map from each table to the tables that extend it directly.
    /// Fails at the first table that extends a type which is no registered
    /// table.
    pub fn build_table_hierarchies(&mut self) -> (r: Result<(), Error>)
        requires
            old(self).wf(),
        ensures
            final(self).wf(),
            final(self).config == old(self).config,
            final(self).modules == old(self).modules,
            final(self).tables == old(self).tables,
            final(self).enumerations == old(self).enumerations,
            final(self).constants == old(self).constants,
            final(self).names == old(self).names,
            final(self).table_indices == old(self).table_indices,
            final(self).enumeration_indices == old(self).enumeration_indices,
            final(self).pending == old(self).pending,
            match r {
                Ok(_) => {
                    &&& forall|i: int|
                        0 <= i < old(self).tables.len() ==> !old(self).parent_unknown(i)
                    &&& final(self).table_hierarchies.len() == old(self).tables.len()
                    &&& forall|p: int|
                        0 <= p < old(self).tables.len() ==> (#[trigger] final(self).table_hierarchies[p])@
                            == old(self).children_of(p)
                },
                Err(e) => exists|i: int|
                    {
                        &&& 0 <= i < old(self).tables.len()
                        &&& old(self).parent_unknown(i)
                        &&& forall|j: int| 0 <= j < i ==> !old(self).parent_unknown(j)
                        &&& e@ == ErrorView::UnknownParent {
                            table: old(self).tables[i].schema.spec_name(),
                            parent: old(self).tables[i].schema.spec_extend()->0@,
                        }
                    },
            },
    {
        let ghost start = *self;
        let count = self.tables.len();
        let mut hierarchies: Vec<Vec<usize>> = Vec::new();
        let mut p: usize = 0;
        while p < count
            invariant
                p <= count,
                hierarchies.len() == p,
                forall|q: int| 0 <= q < p ==> (#[trigger] hierarchies[q])@.len() == 0,
            decreases count - p,
        {
            hierarchies.push(Vec::new());
            p += 1;
        }
        let mut i: usize = 0;
        while i < count
            invariant
                *self == start,
                self.wf(),
                count == self.tables.len(),
                i <= count,
                hierarchies.len() == count,
                forall|j: int| 0 <= j < i ==> !self.parent_unknown(j),
                forall|q: int|
                    0 <= q < count ==> (#[trigger] hierarchies[q])@ == self.children_upto(
                        q,
                        i as nat,
                    ),
            decreases count - i,
        {
            let parent = match self.tables[i].schema.extend() {
                None => None,
                Some(extend) => match self.table_index(extend.as_str()) {
                    None => {
                        let e = Error::UnknownParent {
                            table: String::from_str(self.tables[i].schema.name()),
                            parent: extend.clone(),
                        };
                        proof {
                            assert(self.parent_unknown(i as int));
                            assert(e@ == ErrorView::UnknownParent {
                                table: self.tables[i as int].schema.spec_name(),
                                parent: self.tables[i as int].schema.spec_extend()->0@,
                            });
                        }
                        return Err(e);
                    },
                    Some(parent) => Some(parent),
                },
            };
            proof {
                if parent is Some {
                    crate::generator::lemma_position_of(
                        crate::text::views(self.table_indices@),
                        self.tables[i as int].schema.spec_extend()->0@,
                    );
                }
            }
            if let Some(parent) = parent {
                hierarchies[parent].push(i);
            }
            i += 1;
        }
        self.table_hierarchies = hierarchies;
        Ok(())
    }
}

impl Generator {
    /// A walk up the ancestors that has ended gives the same fields with
    /// more steps allowed.
    pub proof fn lemma_inherited_fields_fuel(&self, extend: Option<String>, fuel: nat)
        requires
            self.inherited_fields(extend, fuel) is Ok,
        ensures
            self.inherited_fields(extend, fuel + 1) == self.inherited_fields(extend, fuel),
        decreases fuel,
    {
        if let Some(p) = extend {
            let i = self.spec_table_index(p@)->0;
            self.lemma_inherited_fields_fuel(
                self.tables[i].schema.spec_extend(),
                (fuel - 1) as nat,
            );
        }
    }

    /// The effective fields of a table are the effective fields of the table
    /// it extends, followed by its own: whatever an ancestor declares stands
    /// before whatever a descendant declares, the farthest ancestor first.
    pub proof fn law_ancestor_fields_first(&self, child: TableSchema, fields: Seq<Field>)
        requires
            child.spec_extend() is Some,
            self.all_fields(child) == Ok::<Seq<Field>, ErrorView>(fields),
        ensures
            self.spec_table_index(child.spec_extend()->0@) is Some,
            ({
                let parent = self.tables[self.spec_table_index(child.spec_extend()->0@)->0].schema;
                &&& self.all_fields(parent) is Ok
                &&& fields == self.all_fields(parent)->Ok_0 + child.spec_fields()@
            }),
    {
        let p = self.spec_table_index(child.spec_extend()->0@)->0;
        let total = self.tables@.len();
        assert(total > 0);
        self.lemma_inherited_fields_fuel(
            self.tables[p].schema.spec_extend(),
            (total - 1) as nat,
        );
    }

    /// Three generations: where `child` extends `parent`, `parent` extends
    /// `root` and `root` extends nothing, the effective fields of `child` are
    /// the fields of `root`, then those of `parent`, then its own.
    pub proof fn law_three_generations(&self, child: TableSchema, fields: Seq<Field>)
        requires
            child.spec_extend() is Some,
            self.all_fields(child) == Ok::<Seq<Field>, ErrorView>(fields),
            ({
                let parent = self.tables[self.spec_table_index(child.spec_extend()->0@)->0].schema;
                &&& parent.spec_extend() is Some
                &&& self.tables[self.spec_table_index(
                    parent.spec_extend()->0@,
                )->0].schema.spec_extend() is None
            }),
        ensures
            ({
                let parent = self.tables[self.spec_table_index(child.spec_extend()->0@)->0].schema;
                let root = self.tables[self.spec_table_index(parent.spec_extend()->0@)->0].schema;
                fields == root.spec_fields()@ + parent.spec_fields()@ + child.spec_fields()@
            }),
    {
        let parent = self.tables[self.spec_table_index(child.spec_extend()->0@)->0].schema;
        self.law_ancestor_fields_first(child, fields);
        let parent_fields = self.all_fields(parent)->Ok_0;
        self.law_ancestor_fields_first(parent, parent_fields);
        let root = self.tables[self.spec_table_index(parent.spec_extend()->0@)->0].schema;
        assert(self.all_fields(root)->Ok_0 =~= root.spec_fields()@);
    }
}

} // verus!
