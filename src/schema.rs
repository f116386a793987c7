use vstd::prelude::*;

verus! {

/// A column of a database table.
#[derive(Debug)]
pub struct Column {
    pub name: String,
    pub data_type: String,
}

/// A foreign key: column `from` of the owning table refers to column `to` of `table`.
#[derive(Debug)]
pub struct ForeignKey {
    pub table: String,
    pub from: String,
    pub to: String,
}

/// What the schema viewer shows of one table.
#[derive(Debug)]
pub struct Table {
    pub name: String,
    pub columns: Vec<Column>,
    pub foreign_keys: Vec<ForeignKey>,
    pub indices: Vec<String>,
}

/// An input event of the schema viewer.
#[derive(Debug, Clone, Copy, PartialEq, Eq, Structural)]
pub enum SchemaKey {
    Down,
    Up,
    Enter,
    /// A mouse press in the given column of the screen.
    Click(usize),
    Other,
}

/// The selected table after an event, among `count` tables: Down moves to the next table
/// (from nothing to the first), Up to the previous one, Enter on the last table clears the
/// selection, and a press in screen column `y` selects table `y` when there is one.
pub open spec fn selection_after(selected: Option<usize>, count: usize, key: SchemaKey) -> Option<usize> {
    match key {
        SchemaKey::Down => match selected {
            Some(s) => if s + 1 < count {
                Some((s + 1) as usize)
            } else {
                Some(s)
            },
            None => Some(0),
        },
        SchemaKey::Up => match selected {
            Some(s) => if s > 0 {
                Some((s - 1) as usize)
            } else {
                Some(s)
            },
            None => None,
        },
        SchemaKey::Enter => match selected {
            Some(s) => if s + 1 == count {
                None
            } else {
                Some(s)
            },
            None => None,
        },
        SchemaKey::Click(y) => if y < count {
            Some(y)
        } else {
            selected
        },
        SchemaKey::Other => selected,
    }
}

/// The selected table after an event, as `selection_after` says.
pub fn next_selection(selected: Option<usize>, count: usize, key: SchemaKey) -> (r: Option<usize>)
    ensures
        r == selection_after(selected, count, key),
{
    match key {
        SchemaKey::Down => match selected {
            Some(s) => if s < count && s + 1 < count {
                Some(s + 1)
            } else {
                Some(s)
            },
            None => Some(0),
        },
        SchemaKey::Up => match selected {
            Some(s) => if s > 0 {
                Some(s - 1)
            } else {
                Some(s)
            },
            None => None,
        },
        SchemaKey::Enter => match selected {
            Some(s) => if s < count && s + 1 == count {
                None
            } else {
                Some(s)
            },
            None => None,
        },
        SchemaKey::Click(y) => if y < count {
            Some(y)
        } else {
            selected
        },
        SchemaKey::Other => selected,
    }
}

/// The position of the first table named `name`, at or after `from`.
pub open spec fn table_index_from(names: Seq<Seq<char>>, name: Seq<char>, from: int) -> Option<int>
    decreases names.len() - from,
{
    if from < 0 || from >= names.len() {
        None
    } else if names[from] == name {
        Some(from)
    } else {
        table_index_from(names, name, from + 1)
    }
}

/// For each referenced table name in order, the position of the first table of that name;
/// names with no table are passed over.
pub open spec fn related_spec(names: Seq<Seq<char>>, refs: Seq<Seq<char>>) -> Seq<int>
    decreases refs.len(),
{
    if refs.len() == 0 {
        Seq::empty()
    } else {
        let rest = related_spec(names, refs.drop_last());
        match table_index_from(names, refs.last(), 0) {
            Some(i) => rest.push(i),
            None => rest,
        }
    }
}

/// The names of the tables.
pub open spec fn table_names(tables: Seq<Table>) -> Seq<Seq<char>> {
    tables.map_values(|t: Table| t.name@)
}

/// The tables that a table's foreign keys refer to.
pub open spec fn referenced(t: Table) -> Seq<Seq<char>> {
    t.foreign_keys@.map_values(|k: ForeignKey| k.table@)
}

pub proof fn lemma_table_index_from(names: Seq<Seq<char>>, name: Seq<char>, from: int)
    requires
        0 <= from,
    ensures
        table_index_from(names, name, from) matches Some(i) ==> from <= i < names.len(),
    decreases names.len() - from,
{
    if from < names.len() && names[from] != name {
        lemma_table_index_from(names, name, from + 1);
    }
}

/// The position of the first table named `name`.
fn find_table(tables: &Vec<Table>, name: &String) -> (r: Option<usize>)
    ensures
        r matches Some(i) ==> table_index_from(table_names(tables@), name@, 0) == Some(i as int),
        r is None ==> table_index_from(table_names(tables@), name@, 0) is None,
{
    let ghost names = table_names(tables@);
    let mut i: usize = 0;
    while i < tables.len()
        invariant
            names == table_names(tables@),
            i <= tables@.len(),
            table_index_from(names, name@, 0) == table_index_from(names, name@, i as int),
        decreases tables@.len() - i,
    {
        assert(names[i as int] == tables@[i as int].name@);
        if tables[i].name == *name {
            return Some(i);
        }
        i += 1;
    }
    None
}

/// The positions of the tables that the selected table's foreign keys refer to, in the
/// order of the keys; empty when nothing is selected.
pub fn related_tables(tables: &Vec<Table>, selected: Option<usize>) -> (r: Vec<usize>)
    ensures
        r@.map_values(|i: usize| i as int) == match selected {
            Some(s) => if s < tables@.len() {
                related_spec(table_names(tables@), referenced(tables@[s as int]))
            } else {
                Seq::empty()
            },
            None => Seq::empty(),
        },
{
    let mut out: Vec<usize> = Vec::new();
    let s = match selected {
        Some(s) => s,
        None => {
            assert(out@.map_values(|i: usize| i as int) =~= Seq::<int>::empty());
            return out;
        },
    };
    if s >= tables.len() {
        assert(out@.map_values(|i: usize| i as int) =~= Seq::<int>::empty());
        return out;
    }
    let t = &tables[s];
    let ghost refs = referenced(*t);
    let ghost names = table_names(tables@);
    let mut k: usize = 0;
    assert(refs.subrange(0, 0) =~= Seq::<Seq<char>>::empty());
    assert(out@.map_values(|i: usize| i as int) =~= related_spec(names, refs.subrange(0, 0)));
    while k < t.foreign_keys.len()
        invariant
            refs == referenced(*t),
            names == table_names(tables@),
            k <= refs.len(),
            out@.map_values(|i: usize| i as int) == related_spec(names, refs.subrange(0, k as int)),
        decreases refs.len() - k,
    {
        let ghost sub = refs.subrange(0, k + 1);
        assert(sub.drop_last() =~= refs.subrange(0, k as int));
        assert(sub.last() == t.foreign_keys@[k as int].table@);
        match find_table(tables, &t.foreign_keys[k].table) {
            Some(i) => {
                let ghost before = out@;
                out.push(i);
                assert(out@.map_values(|i: usize| i as int) =~= before.map_values(|i: usize| i as int).push(i as int));
            },
            None => {},
        }
        k += 1;
    }
    assert(refs.subrange(0, k as int) =~= refs);
    out
}

} // verus!
