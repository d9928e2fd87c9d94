//! The symbol table: the declared variables of a source text, each with the
//! slot that it lives in.
//!
//! The table is built from the raw text before any token is classified. A
//! declaration site is the word `var`, one space, and a run of word
//! characters, wherever it stands; the run is the declared name. Slots are
//! given in the order of the sites, from 0 on.

use vstd::prelude::*;
use vstd::string::StringExecFns;
use crate::text::{
    char_is_word, chars_of, find_word_end, is_word_char, lemma_word_end, text_between, word_end,
};

verus! {

/// The declared names of a source text, in the order of their slots. No name
/// occurs twice in a table.
#[derive(Debug, PartialEq, Eq)]
pub struct SymbolTable {
    names: Vec<String>,
}

/// A name was declared a second time.
#[derive(Debug, PartialEq, Eq)]
pub struct DuplicateDeclarationError {
    pub name: String,
}

impl View for DuplicateDeclarationError {
    type V = Seq<char>;

    open spec fn view(&self) -> Seq<char> {
        self.name@
    }
}

/// The names of the texts of `names`, each by its characters.
pub open spec fn names_view(names: Seq<String>) -> Seq<Seq<char>> {
    Seq::new(names.len(), |i: int| names[i]@)
}

impl View for SymbolTable {
    type V = Seq<Seq<char>>;

    closed spec fn view(&self) -> Seq<Seq<char>> {
        names_view(self.names@)
    }
}

/// The slot of `name` in `names`: the first position that holds it.
pub open spec fn slot_of(names: Seq<Seq<char>>, name: Seq<char>) -> Option<usize>
    decreases names.len(),
{
    if names.len() == 0 {
        None
    } else {
        match slot_of(names.drop_last(), name) {
            Some(slot) => Some(slot),
            None => if names.last() == name {
                Some((names.len() - 1) as usize)
            } else {
                None
            },
        }
    }
}

/// `slot_of` finds a name exactly where the table holds it.
pub proof fn lemma_slot_of(names: Seq<Seq<char>>, name: Seq<char>)
    requires
        names.len() <= usize::MAX,
    ensures
        slot_of(names, name) is None <==> !names.contains(name),
        slot_of(names, name) matches Some(slot) ==> slot < names.len() && names[slot as int] == name
            && forall|k: int| 0 <= k < slot ==> names[k] != name,
    decreases names.len(),
{
    if names.len() > 0 {
        let front = names.drop_last();
        lemma_slot_of(front, name);
        if !front.contains(name) && names.last() != name {
            assert forall|k: int| 0 <= k < names.len() implies names[k] != name by {
                if k < front.len() {
                    assert(front[k] == names[k]);
                }
            }
        }
        if slot_of(names, name) is Some {
            let slot = slot_of(names, name)->0;
            assert forall|k: int| 0 <= k < slot implies names[k] != name by {
                assert(front[k] == names[k]);
            }
        }
    }
}

/// Whether a declaration site starts at `at`: `var`, one space, and at least
/// one word character.
pub open spec fn declaration_at(source: Seq<char>, at: int) -> bool {
    &&& 0 <= at
    &&& at + 4 < source.len()
    &&& source[at] == 'v'
    &&& source[at + 1] == 'a'
    &&& source[at + 2] == 'r'
    &&& source[at + 3] == ' '
    &&& is_word_char(source[at + 4])
}

/// The names of the declaration sites that start at `from` or later, from
/// left to right. The search for the next site goes on behind the name of the
/// one before.
pub open spec fn declared_names_from(source: Seq<char>, from: int) -> Seq<Seq<char>>
    decreases source.len() - from,
{
    if from < 0 || from >= source.len() {
        Seq::<Seq<char>>::empty()
    } else if declaration_at(source, from) {
        proof {
            lemma_word_end(source, from + 4);
        }
        seq![source.subrange(from + 4, word_end(source, from + 4))] + declared_names_from(
            source,
            word_end(source, from + 4),
        )
    } else {
        declared_names_from(source, from + 1)
    }
}

/// The names of all declaration sites of `source`, from left to right.
pub open spec fn declared_names(source: Seq<char>) -> Seq<Seq<char>> {
    declared_names_from(source, 0)
}

/// The table that holds `names` in order, or the first name that stands in
/// `names` a second time.
pub open spec fn table_of_names(names: Seq<Seq<char>>) -> Result<Seq<Seq<char>>, Seq<char>>
    decreases names.len(),
{
    if names.len() == 0 {
        Ok(Seq::<Seq<char>>::empty())
    } else {
        match table_of_names(names.drop_last()) {
            Err(name) => Err(name),
            Ok(table) => if table.contains(names.last()) {
                Err(names.last())
            } else {
                Ok(table.push(names.last()))
            },
        }
    }
}

/// The symbol table of `source`, or the name whose second declaration comes
/// first.
pub open spec fn symbol_table_of(source: Seq<char>) -> Result<Seq<Seq<char>>, Seq<char>> {
    table_of_names(declared_names(source))
}

/// A table holds exactly the names that it was made of, in their order, and
/// holds none of them twice.
pub proof fn lemma_table_of_names(names: Seq<Seq<char>>)
    ensures
        table_of_names(names) matches Ok(table) ==> table == names && names.no_duplicates(),
        table_of_names(names) matches Err(name) ==> exists|i: int, j: int|
            0 <= i < j < names.len() && names[i] == name && names[j] == name,
    decreases names.len(),
{
    if names.len() > 0 {
        let front = names.drop_last();
        lemma_table_of_names(front);
        if table_of_names(front) is Ok && !front.contains(names.last()) {
            assert forall|i: int, j: int|
                0 <= i < names.len() && 0 <= j < names.len() && i != j implies names[i] != names[j] by {
                if i < front.len() && j < front.len() {
                    assert(front[i] == names[i] && front[j] == names[j]);
                } else if i < front.len() {
                    assert(front[i] == names[i]);
                } else {
                    assert(front[j] == names[j]);
                }
            }
        }
    }
}

/// Once a name has been found twice, further names change nothing.
proof fn lemma_duplicate_stays(names: Seq<Seq<char>>, more: Seq<Seq<char>>)
    requires
        table_of_names(names) is Err,
    ensures
        table_of_names(names + more) == table_of_names(names),
    decreases more.len(),
{
    if more.len() > 0 {
        lemma_duplicate_stays(names, more.drop_last());
        assert((names + more).drop_last() =~= names + more.drop_last());
    }
}

impl SymbolTable {
    #[verifier::type_invariant]
    spec fn names_differ(self) -> bool {
        names_view(self.names@).no_duplicates()
    }

    /// A table without names.
    pub fn new() -> (table: SymbolTable)
        ensures
            table@ == Seq::<Seq<char>>::empty(),
    {
        let table = SymbolTable { names: Vec::new() };
        table
    }

    /// The number of declared names, none of which occurs twice.
    pub fn len(&self) -> (count: usize)
        ensures
            count == self@.len(),
            self@.no_duplicates(),
    {
        proof {
            use_type_invariant(self);
        }
        self.names.len()
    }

    /// The slot of `name`, if it is declared.
    pub fn lookup(&self, name: &str) -> (slot: Option<usize>)
        ensures
            slot == slot_of(self@, name@),
            self@.no_duplicates(),
    {
        proof {
            use_type_invariant(self);
        }
        let wanted = String::from_str(name);
        let mut i: usize = 0;
        while i < self.names.len()
            invariant
                i <= self.names.len(),
                wanted@ == name@,
                self@.no_duplicates(),
                slot_of(self@.take(i as int), name@) is None,
            decreases self.names.len() - i,
        {
            proof {
                let next = self@.take(i + 1);
                assert(next.drop_last() =~= self@.take(i as int));
            }
            if self.names[i] == wanted {
                proof {
                    lemma_slot_found(self@, i as int, name@);
                }
                return Some(i);
            }
            i = i + 1;
        }
        assert(self@.take(self.names.len() as int) =~= self@);
        None
    }

    /// Declares `name` in the next free slot, unless it is declared already.
    pub fn declare(&mut self, name: String) -> (result: Result<usize, DuplicateDeclarationError>)
        ensures
            match result {
                Ok(slot) => !old(self)@.contains(name@) && final(self)@ == old(self)@.push(name@)
                    && slot == old(self)@.len(),
                Err(error) => old(self)@.contains(name@) && final(self)@ == old(self)@ && error@
                    == name@,
            },
    {
        proof {
            assert(self@.len() == self.names.len());
            lemma_slot_of(self@, name@);
        }
        match self.lookup(name.as_str()) {
            Some(_) => Err(DuplicateDeclarationError { name }),
            None => {
                let slot = self.names.len();
                let ghost before = names_view(self.names@);
                let mut names: Vec<String> = Vec::new();
                core::mem::swap(&mut self.names, &mut names);
                names.push(name);
                proof {
                    let after = names_view(names@);
                    assert forall|i: int, j: int|
                        0 <= i < after.len() && 0 <= j < after.len() && i != j implies after[i]
                        != after[j] by {
                        if i < before.len() {
                            assert(after[i] == before[i]);
                        }
                        if j < before.len() {
                            assert(after[j] == before[j]);
                        }
                    }
                }
                core::mem::swap(&mut self.names, &mut names);
                Ok(slot)
            },
        }
    }
}

/// What `slot_of` finds in a table is what it finds in the table's front up
/// to and with the first place that holds the name.
proof fn lemma_slot_found(names: Seq<Seq<char>>, at: int, name: Seq<char>)
    requires
        0 <= at < names.len(),
        names.len() <= usize::MAX,
        names[at] == name,
        slot_of(names.take(at), name) is None,
    ensures
        slot_of(names, name) == Some(at as usize),
{
    lemma_slot_of(names.take(at), name);
    lemma_slot_of(names, name);
    let slot = slot_of(names, name)->0;
    if slot < at {
        assert(names.take(at)[slot as int] == name);
    }
}


/// Whether a declaration site starts at `at`.
fn starts_declaration(chars: &Vec<char>, at: usize) -> (found: bool)
    requires
        at <= chars.len(),
    ensures
        found == declaration_at(chars@, at as int),
{
    chars.len() - at > 4 && chars[at] == 'v' && chars[at + 1] == 'a' && chars[at + 2] == 'r' && chars[at
        + 3] == ' ' && char_is_word(chars[at + 4])
}

/// Finds the names of the declaration sites of `source`, from left to right.
pub fn find_declared_names(source: &str) -> (names: Vec<String>)
    ensures
        names_view(names@) == declared_names(source@),
{
    let chars = chars_of(source);
    let mut names: Vec<String> = Vec::new();
    let mut at: usize = 0;
    while at < chars.len()
        invariant
            chars@ == source@,
            at <= chars.len(),
            declared_names(source@) == names_view(names@) + declared_names_from(source@, at as int),
        decreases chars.len() - at,
    {
        if starts_declaration(&chars, at) {
            let end = find_word_end(&chars, at + 4);
            let name = text_between(&chars, at + 4, end);
            names.push(name);
            at = end;
        } else {
            at = at + 1;
        }
    }
    names
}

impl SymbolTable {
    /// The table that holds `names` in their order. Fails with the first
    /// name that stands in `names` a second time.
    pub fn from_names(names: Vec<String>) -> (result: Result<SymbolTable, DuplicateDeclarationError>)
        ensures
            match result {
                Ok(table) => table_of_names(names_view(names@)) == Ok::<Seq<Seq<char>>, Seq<char>>(
                    table@,
                ),
                Err(error) => table_of_names(names_view(names@)) == Err::<Seq<Seq<char>>, Seq<char>>(
                    error@,
                ),
            },
    {
        let ghost all = names_view(names@);
        let mut table = SymbolTable::new();
        let mut i: usize = 0;
        while i < names.len()
            invariant
                i <= names.len(),
                all == names_view(names@),
                table_of_names(all.take(i as int)) == Ok::<Seq<Seq<char>>, Seq<char>>(table@),
            decreases names.len() - i,
        {
            proof {
                let next = all.take(i + 1);
                assert(next.drop_last() =~= all.take(i as int));
            }
            match table.declare(names[i].clone()) {
                Err(error) => {
                    proof {
                        lemma_duplicate_stays(all.take(i + 1), all.skip(i + 1));
                        assert(all.take(i + 1) + all.skip(i + 1) =~= all);
                    }
                    return Err(error);
                },
                Ok(_) => {},
            }
            i = i + 1;
        }
        assert(all.take(names.len() as int) =~= all);
        Ok(table)
    }
}

/// Builds the symbol table of `source`.
///
/// Every declaration site of the text counts, whether or not the text around
/// it is a valid program. The names get the slots 0, 1, 2, ... in the order
/// of their sites. Fails with the first name that is declared a second time.
pub fn create_symbol_table(source: &str) -> (result: Result<SymbolTable, DuplicateDeclarationError>)
    ensures
        match result {
            Ok(table) => symbol_table_of(source@) == Ok::<Seq<Seq<char>>, Seq<char>>(table@),
            Err(error) => symbol_table_of(source@) == Err::<Seq<Seq<char>>, Seq<char>>(error@),
        },
{
    SymbolTable::from_names(find_declared_names(source))
}

/// A text without declaration site declares no name.
pub proof fn lemma_no_declaration_site(source: Seq<char>, from: int)
    requires
        forall|at: int| !declaration_at(source, at),
    ensures
        declared_names_from(source, from) == Seq::<Seq<char>>::empty(),
    decreases source.len() - from,
{
    if 0 <= from < source.len() {
        lemma_no_declaration_site(source, from + 1);
    }
}


/// The symbol table of a text holds the names of the text's declaration
/// sites in their order, none of them twice, so that the name of the site
/// with number `k` has slot `k`.
pub proof fn lemma_slots_follow_declarations(source: Seq<char>)
    requires
        symbol_table_of(source) is Ok,
        declared_names(source).len() <= usize::MAX,
    ensures
        symbol_table_of(source)->Ok_0 == declared_names(source),
        declared_names(source).no_duplicates(),
        forall|k: int|
            0 <= k < declared_names(source).len() ==> slot_of(
                declared_names(source),
                #[trigger] declared_names(source)[k],
            ) == Some(k as usize),
{
    let names = declared_names(source);
    lemma_table_of_names(names);
    assert forall|k: int| 0 <= k < names.len() implies slot_of(names, #[trigger] names[k]) == Some(
        k as usize,
    ) by {
        lemma_slot_of(names, names[k]);
    }
}

} // verus!
