//! The symbol table: declared names and their types.

use crate::ast::Type;
use vstd::prelude::*;

verus! {

/// `==` on `str`, that is `PartialEq::eq`, holds exactly when the two slices
/// hold the same characters.
pub assume_specification[ <str as PartialEq>::eq ](a: &str, b: &str) -> (r: bool)
    ensures
        r == (a@ == b@),
;

/// The index of the entry for `name` in `entries`, if it has one.
pub open spec fn position(entries: Seq<(Seq<char>, Type)>, name: Seq<char>) -> Option<int>
    decreases entries.len(),
{
    if entries.len() == 0 {
        None
    } else if entries.last().0 == name {
        Some(entries.len() - 1)
    } else {
        position(entries.drop_last(), name)
    }
}

/// `name` has been declared.
pub open spec fn declared(entries: Seq<(Seq<char>, Type)>, name: Seq<char>) -> bool {
    position(entries, name) is Some
}

/// The type under which `name` was last declared.
pub open spec fn type_of(entries: Seq<(Seq<char>, Type)>, name: Seq<char>) -> Option<Type> {
    match position(entries, name) {
        Some(i) => Some(entries[i].1),
        None => None,
    }
}

/// The table after `name` is declared with type `ty`: an entry for the name
/// is overwritten where it stands, a new name is added at the end.
pub open spec fn declare(entries: Seq<(Seq<char>, Type)>, name: Seq<char>, ty: Type) -> Seq<
    (Seq<char>, Type),
> {
    match position(entries, name) {
        Some(i) => entries.update(i, (name, ty)),
        None => entries.push((name, ty)),
    }
}

/// No name has two entries.
pub open spec fn distinct_names(entries: Seq<(Seq<char>, Type)>) -> bool {
    forall|i: int, j: int|
        0 <= i < j < entries.len() ==> (#[trigger] entries[i]).0 != (#[trigger] entries[j]).0
}

/// Where `position` finds a name, the entry there carries it; where it finds
/// none, no entry does.
pub proof fn lemma_position(entries: Seq<(Seq<char>, Type)>, name: Seq<char>)
    ensures
        match position(entries, name) {
            Some(i) => 0 <= i < entries.len() && entries[i].0 == name && forall|j: int|
                i < j < entries.len() ==> (#[trigger] entries[j]).0 != name,
            None => forall|j: int| 0 <= j < entries.len() ==> (#[trigger] entries[j]).0 != name,
        },
    decreases entries.len(),
{
    if entries.len() > 0 && entries.last().0 != name {
        let front = entries.drop_last();
        lemma_position(front, name);
        assert(forall|j: int| 0 <= j < front.len() ==> front[j] == entries[j]);
    }
}

/// Any entry that carries the name fixes what `position` finds, as long as no
/// later entry carries it too.
pub proof fn lemma_position_at(entries: Seq<(Seq<char>, Type)>, name: Seq<char>, i: int)
    requires
        0 <= i < entries.len(),
        entries[i].0 == name,
        forall|j: int| i < j < entries.len() ==> (#[trigger] entries[j]).0 != name,
    ensures
        position(entries, name) == Some(i),
    decreases entries.len(),
{
    if entries.last().0 != name {
        let front = entries.drop_last();
        assert(forall|j: int| 0 <= j < front.len() ==> front[j] == entries[j]);
        lemma_position_at(front, name, i);
    }
}

/// A name that no entry carries is not found.
pub proof fn lemma_position_none(entries: Seq<(Seq<char>, Type)>, name: Seq<char>)
    requires
        forall|j: int| 0 <= j < entries.len() ==> (#[trigger] entries[j]).0 != name,
    ensures
        position(entries, name) is None,
    decreases entries.len(),
{
    if entries.len() > 0 {
        let front = entries.drop_last();
        assert(forall|j: int| 0 <= j < front.len() ==> front[j] == entries[j]);
        lemma_position_none(front, name);
    }
}

/// The last declaration wins: after `declare`, the name has the new type,
/// every other name has what it had, and no name has two entries.
pub proof fn lemma_declare(
    entries: Seq<(Seq<char>, Type)>,
    name: Seq<char>,
    ty: Type,
    other: Seq<char>,
)
    requires
        distinct_names(entries),
    ensures
        distinct_names(declare(entries, name, ty)),
        type_of(declare(entries, name, ty), name) == Some(ty),
        other != name ==> type_of(declare(entries, name, ty), other) == type_of(entries, other),
        other != name ==> declared(declare(entries, name, ty), other) == declared(entries, other),
        declared(entries, name) ==> declare(entries, name, ty).len() == entries.len(),
        !declared(entries, name) ==> declare(entries, name, ty).len() == entries.len() + 1,
{
    let after = declare(entries, name, ty);
    lemma_position(entries, name);
    lemma_position(entries, other);
    match position(entries, name) {
        Some(i) => {
            lemma_position_at(after, name, i);
            if other != name {
                match position(entries, other) {
                    Some(k) => {
                        lemma_position_at(after, other, k);
                    },
                    None => {
                        lemma_position_none(after, other);
                    },
                }
            }
        },
        None => {
            lemma_position_at(after, name, entries.len() as int);
            if other != name {
                match position(entries, other) {
                    Some(k) => {
                        lemma_position_at(after, other, k);
                    },
                    None => {
                        lemma_position_none(after, other);
                    },
                }
            }
        },
    }
}

/// Names with their types, in the order of their first declaration.
#[derive(Debug)]
pub struct SymbolTable {
    entries: Vec<(String, Type)>,
}

impl View for SymbolTable {
    type V = Seq<(Seq<char>, Type)>;

    closed spec fn view(&self) -> Seq<(Seq<char>, Type)> {
        Seq::new(self.entries@.len(), |i: int| (self.entries@[i].0@, self.entries@[i].1))
    }
}

impl SymbolTable {
    /// No name has two entries.
    pub open spec fn wf(&self) -> bool {
        distinct_names(self@)
    }

    /// The empty table.
    pub fn new() -> (table: SymbolTable)
        ensures
            table@ == Seq::<(Seq<char>, Type)>::empty(),
            table.wf(),
    {
        let table = SymbolTable { entries: Vec::new() };
        assert(table@ =~= Seq::<(Seq<char>, Type)>::empty());
        table
    }

    /// The number of declared names.
    pub fn len(&self) -> (n: usize)
        ensures
            n == self@.len(),
    {
        self.entries.len()
    }

    /// The name of the entry at `index`.
    pub fn name_at(&self, index: usize) -> (name: &String)
        requires
            index < self@.len(),
        ensures
            name@ == self@[index as int].0,
    {
        &self.entries[index].0
    }

    /// The type of the entry at `index`.
    pub fn type_at(&self, index: usize) -> (ty: Type)
        requires
            index < self@.len(),
        ensures
            ty == self@[index as int].1,
    {
        self.entries[index].1
    }

    fn find(&self, name: &str) -> (found: Option<usize>)
        ensures
            match found {
                Some(i) => position(self@, name@) == Some(i as int) && i < self@.len(),
                None => position(self@, name@) is None,
            },
    {
        let mut i: usize = self.entries.len();
        assert(self@.take(i as int) =~= self@);
        while i > 0
            invariant
                i <= self.entries@.len(),
                position(self@, name@) == position(self@.take(i as int), name@),
            decreases i,
        {
            let ghost upto = self@.take(i as int);
            assert(upto.last() == self@[i - 1]);
            assert(upto.drop_last() =~= self@.take(i - 1));
            if *self.entries[i - 1].0.as_str() == *name {
                return Some(i - 1);
            }
            i = i - 1;
        }
        assert(self@.take(0).len() == 0);
        None
    }

    /// Whether `name` has been declared.
    pub fn contains(&self, name: &str) -> (found: bool)
        ensures
            found == declared(self@, name@),
    {
        self.find(name).is_some()
    }

    /// The type of `name`, or `None` where it has not been declared.
    pub fn lookup(&self, name: &str) -> (ty: Option<Type>)
        ensures
            ty == type_of(self@, name@),
    {
        match self.find(name) {
            Some(i) => Some(self.entries[i].1),
            None => None,
        }
    }

    /// Declares `name` with type `ty`. A name that is declared again keeps its
    /// place and takes the new type.
    pub fn declare(&mut self, name: String, ty: Type)
        ensures
            final(self)@ == declare(old(self)@, name@, ty),
            old(self).wf() ==> final(self).wf(),
    {
        proof {
            lemma_position(self@, name@);
            if self.wf() {
                lemma_declare(self@, name@, ty, name@);
            }
        }
        match self.find(name.as_str()) {
            Some(i) => {
                self.entries.set(i, (name, ty));
                assert(self@ =~= old(self)@.update(i as int, (name@, ty)));
            },
            None => {
                self.entries.push((name, ty));
                assert(self@ =~= old(self)@.push((name@, ty)));
            },
        }
    }
}

} // verus!
