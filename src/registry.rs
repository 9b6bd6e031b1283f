//! The registration pass: identifiers for subtrees and fields, and the dispatch tables.
use vstd::prelude::*;

use crate::case::{is_trim_of, snake_of, title_words, CaseConvert};
use crate::schema::{FieldSchema, FieldType, Schema, Subdissector, schema_ok};
use crate::text::str_eq;
use crate::validate::{check_schema, error_located, SchemaError, SchemaErrorKind};

verus! {

/// A field that gets a field identifier of its own: it is not handed to a subdissector and
/// its type is not a composite or an enum, whose own composites are registered instead.
pub open spec fn is_leaf(f: FieldSchema) -> bool {
    f.subdissector is None && !(f.ty is Composite) && !(f.ty is Enum)
}

/// The dispatch table that a field names, if any.
pub open spec fn table_of(f: FieldSchema) -> Option<Seq<char>> {
    match f.subdissector {
        Some(Subdissector::DecodeAs(t)) => Some(t@),
        Some(Subdissector::Table { table, .. }) => Some(table@),
        None => None,
    }
}

/// How many fields the first `n` composites of `s` have in all.
pub open spec fn field_total(s: Schema, n: int) -> int
    decreases n,
{
    if n <= 0 {
        0
    } else {
        field_total(s, n - 1) + s.composites@[n - 1].fields@.len()
    }
}

proof fn lemma_field_total_mono(s: Schema, a: int, b: int)
    requires
        0 <= a <= b,
    ensures
        field_total(s, a) <= field_total(s, b),
    decreases b - a,
{
    if a < b {
        lemma_field_total_mono(s, a, b - 1);
    }
}

/// `l` is the display name of field `f`: its rename, or else its name in title case.
pub open spec fn label_ok(l: Seq<char>, f: FieldSchema) -> bool {
    match f.rename {
        Some(n) => l == n@,
        None => is_trim_of(l, title_words(snake_of(f.name@))),
    }
}

/// The identifier tables as values.
pub struct RegistryView {
    /// The subtree identifier of each composite, by index.
    pub subtrees: Seq<Option<u32>>,
    /// The field identifier of each field of each composite.
    pub fields: Seq<Seq<Option<u32>>>,
    /// The names of the dispatch tables created.
    pub tables: Seq<Seq<char>>,
    /// The display name registered for each field of each composite.
    pub labels: Seq<Seq<Seq<char>>>,
    pub next_subtree: u32,
    pub next_field: u32,
}

/// Identifiers assigned to a schema's composites and fields, the display names of the fields,
/// and the dispatch tables it created. Built once at startup and read during dissection.
/// Every composite, an enum's variants included, gets a subtree identifier of its own, since
/// each variant is decoded as a subtree of its own; the enum field itself gets none.
#[derive(Debug)]
pub struct Registry {
    subtrees: Vec<Option<u32>>,
    fields: Vec<Vec<Option<u32>>>,
    tables: Vec<String>,
    labels: Vec<Vec<String>>,
    next_subtree: u32,
    next_field: u32,
}

impl View for Registry {
    type V = RegistryView;

    closed spec fn view(&self) -> RegistryView {
        RegistryView {
            subtrees: self.subtrees@,
            fields: self.fields@.map_values(|r: Vec<Option<u32>>| r@),
            tables: self.tables@.map_values(|t: String| t@),
            labels: self.labels@.map_values(|r: Vec<String>| r@.map_values(|l: String| l@)),
            next_subtree: self.next_subtree,
            next_field: self.next_field,
        }
    }
}

impl RegistryView {
    /// Composite `c` of `s` is registered: it has a subtree identifier, and exactly its leaf
    /// fields have field identifiers.
    pub open spec fn has_composite(self, s: Schema, c: int) -> bool {
        &&& c < self.subtrees.len()
        &&& c < self.fields.len()
        &&& self.subtrees[c] is Some
        &&& self.fields[c].len() == s.composites@[c].fields@.len()
        &&& forall|j: int|
            0 <= j < self.fields[c].len() ==> (#[trigger] self.fields[c][j] is Some <==> is_leaf(
                s.composites@[c].fields@[j],
            ))
        &&& c < self.labels.len()
        &&& self.labels[c].len() == s.composites@[c].fields@.len()
        &&& forall|j: int|
            0 <= j < self.labels[c].len() ==> label_ok(#[trigger] self.labels[c][j], s.composites@[c].fields@[j])
    }

    /// Every composite of `s` is registered, and every dispatch table it names exists.
    pub open spec fn covers(self, s: Schema) -> bool {
        &&& forall|c: int| 0 <= c < s.composites@.len() ==> #[trigger] self.has_composite(s, c)
        &&& forall|c: int, j: int|
            0 <= c < s.composites@.len() && 0 <= j < s.composites@[c].fields@.len()
                && #[trigger] table_of(s.composites@[c].fields@[j]) is Some ==> self.tables.contains(
                table_of(s.composites@[c].fields@[j])->0,
            )
    }

    /// The registered composites are those of `s`.
    pub open spec fn fits(self, s: Schema) -> bool {
        &&& self.subtrees.len() == self.fields.len()
        &&& self.subtrees.len() == self.labels.len()
        &&& self.subtrees.len() <= s.composites@.len()
        &&& forall|c: int|
            0 <= c < self.subtrees.len() && #[trigger] self.subtrees[c] is Some ==> self.has_composite(
                s,
                c,
            )
    }

    /// Identifiers are below the next ones to hand out and no two are equal; no table is
    /// created twice.
    pub open spec fn unique(self) -> bool {
        &&& forall|c: int|
            0 <= c < self.subtrees.len() && #[trigger] self.subtrees[c] is Some
                ==> self.subtrees[c]->0 < self.next_subtree
        &&& forall|c: int, d: int|
            0 <= c < d < self.subtrees.len() && #[trigger] self.subtrees[c] is Some
                && #[trigger] self.subtrees[d] is Some ==> self.subtrees[c] != self.subtrees[d]
        &&& forall|c: int, j: int|
            0 <= c < self.fields.len() && 0 <= j < self.fields[c].len()
                && #[trigger] self.fields[c][j] is Some ==> self.fields[c][j]->0 < self.next_field
        &&& forall|c: int, j: int, d: int, k: int|
            0 <= c < self.fields.len() && 0 <= j < self.fields[c].len() && 0 <= d
                < self.fields.len() && 0 <= k < self.fields[d].len() && (c, j) != (d, k)
                && #[trigger] self.fields[c][j] is Some && #[trigger] self.fields[d][k] is Some
                ==> self.fields[c][j] != self.fields[d][k]
        &&& forall|a: int, b: int|
            0 <= a < b < self.tables.len() ==> #[trigger] self.tables[a] != #[trigger] self.tables[b]
    }
}

impl Registry {
    /// An empty registry.
    pub fn new() -> (r: Registry)
        ensures
            r@.subtrees.len() == 0,
            r@.fields.len() == 0,
            r@.tables.len() == 0,
            r@.unique(),
    {
        let r = Registry {
            subtrees: Vec::new(),
            fields: Vec::new(),
            tables: Vec::new(),
            labels: Vec::new(),
            next_subtree: 0,
            next_field: 0,
        };
        proof {
            assert(r@.fields =~= Seq::<Seq<Option<u32>>>::empty());
            assert(r@.tables =~= Seq::<Seq<char>>::empty());
            assert(r@.labels =~= Seq::<Seq<Seq<char>>>::empty());
        }
        r
    }

    /// The subtree identifier of composite `c`.
    pub fn subtree_id(&self, c: usize) -> (r: Option<u32>)
        ensures
            r == if c < self@.subtrees.len() {
                self@.subtrees[c as int]
            } else {
                None
            },
    {
        if c < self.subtrees.len() {
            self.subtrees[c]
        } else {
            None
        }
    }

    /// The field identifier of field `j` of composite `c`.
    pub fn field_id(&self, c: usize, j: usize) -> (r: Option<u32>)
        ensures
            r == if c < self@.fields.len() && j < self@.fields[c as int].len() {
                self@.fields[c as int][j as int]
            } else {
                None
            },
    {
        if c < self.fields.len() && j < self.fields[c].len() {
            self.fields[c][j]
        } else {
            None
        }
    }

    /// The display name registered for field `j` of composite `c`.
    pub fn label(&self, c: usize, j: usize) -> (r: Option<String>)
        ensures
            r is Some <==> c < self@.labels.len() && j < self@.labels[c as int].len(),
            r matches Some(l) ==> l@ == self@.labels[c as int][j as int],
    {
        if c < self.labels.len() && j < self.labels[c].len() {
            Some(self.labels[c][j].clone())
        } else {
            None
        }
    }

    /// Whether a dispatch table of this name was created.
    pub fn has_table(&self, name: &str) -> (r: bool)
        ensures
            r == self@.tables.contains(name@),
    {
        let mut i: usize = 0;
        while i < self.tables.len()
            invariant
                i <= self.tables@.len(),
                forall|t: int| 0 <= t < i ==> self@.tables[t] != name@,
            decreases self.tables@.len() - i,
        {
            if str_eq(self.tables[i].as_str(), name) {
                assert(self@.tables[i as int] == name@);
                return true;
            }
            i = i + 1;
        }
        false
    }
}

impl Registry {
    /// Creates the dispatch tables that the fields of composite `c` name, each unless it
    /// exists already.
    fn register_tables(&mut self, s: &Schema, c: usize)
        requires
            c < s.composites@.len(),
            old(self)@.unique(),
        ensures
            final(self)@.subtrees == old(self)@.subtrees,
            final(self)@.fields == old(self)@.fields,
            final(self)@.labels == old(self)@.labels,
            final(self)@.next_subtree == old(self)@.next_subtree,
            final(self)@.next_field == old(self)@.next_field,
            final(self)@.unique(),
            forall|t: Seq<char>| old(self)@.tables.contains(t) ==> final(self)@.tables.contains(t),
            forall|j: int|
                0 <= j < s.composites@[c as int].fields@.len() && #[trigger] table_of(
                    s.composites@[c as int].fields@[j],
                ) is Some ==> final(self)@.tables.contains(
                    table_of(s.composites@[c as int].fields@[j])->0,
                ),
            (forall|j: int|
                0 <= j < s.composites@[c as int].fields@.len() && #[trigger] table_of(
                    s.composites@[c as int].fields@[j],
                ) is Some ==> old(self)@.tables.contains(
                    table_of(s.composites@[c as int].fields@[j])->0,
                )) ==> final(self)@ == old(self)@,
    {
        let comp = &s.composites[c];
        let mut j: usize = 0;
        while j < comp.fields.len()
            invariant
                c < s.composites@.len(),
                comp == s.composites@[c as int],
                j <= comp.fields@.len(),
                self@.subtrees == old(self)@.subtrees,
                self@.fields == old(self)@.fields,
                self@.labels == old(self)@.labels,
                self@.next_subtree == old(self)@.next_subtree,
                self@.next_field == old(self)@.next_field,
                self@.unique(),
                forall|t: Seq<char>| old(self)@.tables.contains(t) ==> self@.tables.contains(t),
                forall|t: int|
                    0 <= t < j && #[trigger] table_of(comp.fields@[t]) is Some
                        ==> self@.tables.contains(table_of(comp.fields@[t])->0),
                (forall|t: int|
                    0 <= t < comp.fields@.len() && #[trigger] table_of(comp.fields@[t]) is Some
                        ==> old(self)@.tables.contains(table_of(comp.fields@[t])->0)) ==> self@
                    == old(self)@,
            decreases comp.fields@.len() - j,
        {
            let name: Option<&String> = match &comp.fields[j].subdissector {
                Some(Subdissector::DecodeAs(t)) => Some(t),
                Some(Subdissector::Table { table, .. }) => Some(table),
                None => None,
            };
            if let Some(t) = name {
                assert(table_of(comp.fields@[j as int]) == Some(t@));
                if !self.has_table(t.as_str()) {
                    let ghost before = self@;
                    self.tables.push(t.clone());
                    proof {
                        assert(self@.tables =~= before.tables.push(t@));
                        assert forall|a: int, b: int|
                            0 <= a < b < self@.tables.len() implies #[trigger] self@.tables[a]
                            != #[trigger] self@.tables[b] by {
                            if b == self@.tables.len() - 1 {
                                assert(before.tables[a] == self@.tables[a]);
                                assert(!before.tables.contains(t@));
                            } else {
                                assert(before.tables[a] == self@.tables[a]);
                                assert(before.tables[b] == self@.tables[b]);
                            }
                        }
                        assert forall|x: Seq<char>| before.tables.contains(x) implies self@.tables.contains(x) by {
                            let i = choose|i: int| 0 <= i < before.tables.len() && before.tables[i] == x;
                            assert(self@.tables[i] == x);
                        }
                        assert(self@.tables[before.tables.len() as int] == t@);
                    }
                }
            }
            j = j + 1;
        }
    }

    /// Assigns the subtree identifier of composite `c` and the field identifiers of its leaf
    /// fields.
    fn register_composite(&mut self, s: &Schema, c: usize) -> (r: Result<(), SchemaError>)
        requires
            c < s.composites@.len(),
            c < old(self)@.subtrees.len(),
            old(self)@.subtrees.len() == old(self)@.fields.len(),
            old(self)@.subtrees.len() == old(self)@.labels.len(),
            old(self)@.unique(),
        ensures
            r is Ok ==> final(self)@.has_composite(*s, c as int),
            r is Err ==> final(self)@ == old(self)@,
            r matches Err(e) ==> e.kind == SchemaErrorKind::TooManyIdentifiers,
            old(self)@.next_subtree < u32::MAX && old(self)@.next_field
                + s.composites@[c as int].fields@.len() < u32::MAX ==> r is Ok,
            r is Ok ==> final(self)@.next_subtree == old(self)@.next_subtree + 1
                && final(self)@.next_field <= old(self)@.next_field
                + s.composites@[c as int].fields@.len(),
            final(self)@.unique(),
            final(self)@.subtrees.len() == old(self)@.subtrees.len(),
            final(self)@.fields.len() == old(self)@.fields.len(),
            final(self)@.tables == old(self)@.tables,
            final(self)@.labels.len() == old(self)@.labels.len(),
            forall|d: int|
                0 <= d < old(self)@.subtrees.len() && d != c ==> final(self)@.subtrees[d] == old(
                    self,
                )@.subtrees[d] && final(self)@.fields[d] == old(self)@.fields[d],
            forall|d: int|
                0 <= d < old(self)@.labels.len() && d != c ==> final(self)@.labels[d] == old(self)@.labels[d],
    {
        if self.next_subtree == u32::MAX {
            return Err(SchemaError { kind: SchemaErrorKind::TooManyIdentifiers, owner: c, item: 0 });
        }
        let comp = &s.composites[c];
        if comp.fields.len() as u64 >= (u32::MAX - self.next_field) as u64 {
            return Err(SchemaError { kind: SchemaErrorKind::TooManyIdentifiers, owner: c, item: 0 });
        }
        let start = self.next_field;
        let mut row: Vec<Option<u32>> = Vec::new();
        let mut lrow: Vec<String> = Vec::new();
        let mut j: usize = 0;
        while j < comp.fields.len()
            invariant
                c < s.composites@.len(),
                comp == s.composites@[c as int],
                j <= comp.fields@.len(),
                row@.len() == j,
                lrow@.len() == j,
                forall|t: int| 0 <= t < j ==> label_ok(#[trigger] lrow@[t]@, comp.fields@[t]),
                start <= self.next_field <= start + j,
                start + comp.fields@.len() < u32::MAX,
                self@ == (RegistryView { next_field: self.next_field, ..old(self)@ }),
                start == old(self)@.next_field,
                forall|t: int| 0 <= t < j ==> (#[trigger] row@[t] is Some <==> is_leaf(comp.fields@[t])),
                forall|t: int| 0 <= t < j && #[trigger] row@[t] is Some ==> start <= row@[t]->0 < self.next_field,
                forall|t: int, u: int| 0 <= t < u < j && #[trigger] row@[t] is Some && #[trigger] row@[u] is Some ==> row@[t]->0 < row@[u]->0,
            decreases comp.fields@.len() - j,
        {
            let f = &comp.fields[j];
            lrow.push(field_label(f));
            let leaf = f.subdissector.is_none() && !matches!(f.ty, FieldType::Composite(_)) && !matches!(f.ty, FieldType::Enum(_));
            if leaf {
                row.push(Some(self.next_field));
                self.next_field = self.next_field + 1;
            } else {
                row.push(None);
            }
            j = j + 1;
        }
        let ghost before = self@;
        let id = self.next_subtree;
        self.subtrees.set(c, Some(id));
        self.next_subtree = id + 1;
        self.fields.set(c, row);
        self.labels.set(c, lrow);
        proof {
            assert(self@.fields =~= before.fields.update(c as int, row@));
            assert(self@.labels =~= before.labels.update(c as int, lrow@.map_values(|l: String| l@)));
            assert(self@.subtrees =~= before.subtrees.update(c as int, Some(id)));
            let v = self@;
            assert forall|a: int, b: int, d: int, k: int|
                0 <= a < v.fields.len() && 0 <= b < v.fields[a].len() && 0 <= d
                    < v.fields.len() && 0 <= k < v.fields[d].len() && (a, b) != (d, k)
                    && #[trigger] v.fields[a][b] is Some && #[trigger] v.fields[d][k] is Some
                    implies v.fields[a][b] != v.fields[d][k] by {
                if a == c && d == c {
                    if b < k {
                        assert(row@[b] is Some && row@[k] is Some);
                    } else {
                        assert(row@[k] is Some && row@[b] is Some);
                    }
                } else if a == c {
                    assert(before.fields[d][k] is Some);
                } else if d == c {
                    assert(before.fields[a][b] is Some);
                } else {
                    assert(before.fields[a][b] is Some && before.fields[d][k] is Some);
                }
            }
            assert forall|a: int, b: int|
                0 <= a < v.fields.len() && 0 <= b < v.fields[a].len()
                    && #[trigger] v.fields[a][b] is Some implies v.fields[a][b]->0 < v.next_field by {
                if a != c {
                    assert(before.fields[a][b] is Some);
                }
            }
            assert forall|a: int, b: int|
                0 <= a < b < v.subtrees.len() && #[trigger] v.subtrees[a] is Some
                    && #[trigger] v.subtrees[b] is Some implies v.subtrees[a] != v.subtrees[b] by {
                if a == c {
                    assert(before.subtrees[b] is Some);
                } else if b == c {
                    assert(before.subtrees[a] is Some);
                } else {
                }
            }
            assert forall|a: int|
                0 <= a < v.subtrees.len() && #[trigger] v.subtrees[a] is Some
                    implies v.subtrees[a]->0 < v.next_subtree by {
                if a != c {
                    assert(before.subtrees[a] is Some);
                }
            }
        }
        Ok(())
    }
}

impl Registry {
    /// Registers a schema once at startup. A schema error is reported before anything
    /// changes. Composites that are registered already keep their identifiers and dispatch
    /// tables that exist are reused, so registering a schema again changes nothing.
    pub fn register(&mut self, s: &Schema) -> (r: Result<(), SchemaError>)
        requires
            old(self)@.fits(*s),
            old(self)@.unique(),
        ensures
            final(self)@.fits(*s),
            final(self)@.unique(),
            !schema_ok(*s) ==> r is Err && final(self)@ == old(self)@,
            r is Ok ==> schema_ok(*s) && final(self)@.covers(*s),
            r matches Err(e) ==> (e.kind == SchemaErrorKind::TooManyIdentifiers <==> schema_ok(*s)),
            r matches Err(e) ==> error_located(*s, e),
            old(self)@.covers(*s) && schema_ok(*s) ==> r is Ok && final(self)@ == old(self)@,
            schema_ok(*s) && old(self)@.next_subtree + s.composites@.len() < u32::MAX
                && old(self)@.next_field + field_total(*s, s.composites@.len() as int) < u32::MAX
                ==> r is Ok,
    {
        match check_schema(s) {
            Ok(()) => {},
            Err(e) => {
                return Err(e);
            },
        }
        let n = s.composites.len();
        while self.subtrees.len() < n
            invariant
                n == s.composites@.len(),
                self@.fits(*s),
                self@.unique(),
                self@.tables == old(self)@.tables,
                self@.next_subtree == old(self)@.next_subtree,
                self@.next_field == old(self)@.next_field,
                old(self)@.covers(*s) ==> self@ == old(self)@,
            decreases n - self@.subtrees.len(),
        {
            let ghost before = self@;
            proof {
                if old(self)@.covers(*s) {
                    assert(old(self)@.has_composite(*s, before.subtrees.len() as int));
                }
            }
            self.subtrees.push(None);
            self.fields.push(Vec::new());
            self.labels.push(Vec::new());
            proof {
                let v = self@;
                assert(self.labels@.last()@.map_values(|l: String| l@) =~= Seq::<Seq<char>>::empty());
                assert(v.labels =~= before.labels.push(Seq::<Seq<char>>::empty()));
                assert(v.subtrees =~= before.subtrees.push(None));
                assert(v.fields =~= before.fields.push(Seq::<Option<u32>>::empty()));
                assert forall|c: int|
                    0 <= c < v.subtrees.len() && #[trigger] v.subtrees[c] is Some implies v.has_composite(*s, c) by {
                    assert(before.subtrees[c] is Some);
                    assert(before.has_composite(*s, c));
                }
                assert forall|a: int, b: int|
                    0 <= a < v.fields.len() && 0 <= b < v.fields[a].len()
                        && #[trigger] v.fields[a][b] is Some implies v.fields[a][b]->0 < v.next_field by {
                    assert(before.fields[a][b] is Some);
                }
                assert forall|a: int, b: int, d: int, k: int|
                    0 <= a < v.fields.len() && 0 <= b < v.fields[a].len() && 0 <= d
                        < v.fields.len() && 0 <= k < v.fields[d].len() && (a, b) != (d, k)
                        && #[trigger] v.fields[a][b] is Some && #[trigger] v.fields[d][k] is Some
                        implies v.fields[a][b] != v.fields[d][k] by {
                    assert(before.fields[a][b] is Some && before.fields[d][k] is Some);
                }
                assert forall|a: int, b: int|
                    0 <= a < b < v.subtrees.len() && #[trigger] v.subtrees[a] is Some
                        && #[trigger] v.subtrees[b] is Some implies v.subtrees[a] != v.subtrees[b] by {
                    assert(before.subtrees[a] is Some && before.subtrees[b] is Some);
                }
                assert forall|a: int|
                    0 <= a < v.subtrees.len() && #[trigger] v.subtrees[a] is Some
                        implies v.subtrees[a]->0 < v.next_subtree by {
                    assert(before.subtrees[a] is Some);
                }
            }
        }
        let mut c: usize = 0;
        while c < n
            invariant
                n == s.composites@.len(),
                schema_ok(*s),
                self@.subtrees.len() == n,
                self@.fits(*s),
                self@.unique(),
                c <= n,
                forall|d: int| 0 <= d < c ==> #[trigger] self@.has_composite(*s, d),
                forall|d: int, j: int|
                    0 <= d < c && 0 <= j < s.composites@[d].fields@.len()
                        && #[trigger] table_of(s.composites@[d].fields@[j]) is Some ==> self@.tables.contains(
                        table_of(s.composites@[d].fields@[j])->0,
                    ),
                old(self)@.covers(*s) ==> self@ == old(self)@,
                self@.next_subtree <= old(self)@.next_subtree + c,
                self@.next_field <= old(self)@.next_field + field_total(*s, c as int),
            decreases n - c,
        {
            let ghost before = self@;
            if self.subtrees[c].is_none() {
                proof {
                    if old(self)@.covers(*s) {
                        assert(old(self)@.has_composite(*s, c as int));
                    }
                    lemma_field_total_mono(*s, c + 1, n as int);
                }
                match self.register_composite(s, c) {
                    Ok(()) => {},
                    Err(e) => {
                        return Err(e);
                    },
                }
                proof {
                    let v = self@;
                    assert forall|d: int|
                        0 <= d < v.subtrees.len() && #[trigger] v.subtrees[d] is Some implies v.has_composite(*s, d) by {
                        if d != c {
                            assert(before.subtrees[d] is Some);
                            assert(before.has_composite(*s, d));
                        }
                    }
                    assert forall|d: int| 0 <= d < c implies #[trigger] v.has_composite(*s, d) by {
                        assert(before.has_composite(*s, d));
                    }
                }
            } else {
                proof {
                    assert(before.has_composite(*s, c as int));
                }
            }
            let ghost mid = self@;
            proof {
                if old(self)@.covers(*s) {
                    assert forall|j: int|
                        0 <= j < s.composites@[c as int].fields@.len() && #[trigger] table_of(
                            s.composites@[c as int].fields@[j],
                        ) is Some implies mid.tables.contains(
                            table_of(s.composites@[c as int].fields@[j])->0,
                        ) by {
                        assert(table_of(s.composites@[c as int].fields@[j]) is Some);
                    }
                }
            }
            self.register_tables(s, c);
            proof {
                let v = self@;
                assert forall|d: int|
                    0 <= d < v.subtrees.len() && #[trigger] v.subtrees[d] is Some implies v.has_composite(*s, d) by {
                    assert(mid.subtrees[d] is Some);
                    assert(mid.has_composite(*s, d));
                }
                assert forall|d: int| 0 <= d < c + 1 implies #[trigger] v.has_composite(*s, d) by {
                    assert(mid.has_composite(*s, d));
                }
                assert forall|d: int, j: int|
                    0 <= d < c + 1 && 0 <= j < s.composites@[d].fields@.len()
                        && #[trigger] table_of(s.composites@[d].fields@[j]) is Some implies v.tables.contains(
                        table_of(s.composites@[d].fields@[j])->0,
                    ) by {
                    if d < c {
                        assert(mid.tables.contains(table_of(s.composites@[d].fields@[j])->0));
                    }
                }
            }
            c = c + 1;
        }
        Ok(())
    }
}

/// The display name registered for a field: its rename, or else its name in title case.
pub fn field_label(f: &FieldSchema) -> (r: String)
    ensures
        match f.rename {
            Some(n) => r@ == n@,
            None => is_trim_of(r@, title_words(snake_of(f.name@))),
        },
{
    match &f.rename {
        Some(n) => n.clone(),
        None => f.name.as_str().to_wsdf_title_case(),
    }
}

} // verus!
