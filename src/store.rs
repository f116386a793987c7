use vstd::prelude::*;

verus! {

/// One stored note: its text and the identifiers of its source, topic and context.
#[derive(Debug)]
pub struct Note {
    pub id: i64,
    pub content: String,
    pub source_id: i64,
    pub topic_id: i64,
    pub context_id: i64,
}

/// What a `Note` holds, as a mathematical value.
pub ghost struct NoteView {
    pub id: i64,
    pub content: Seq<char>,
    pub source_id: i64,
    pub topic_id: i64,
    pub context_id: i64,
}

impl View for Note {
    type V = NoteView;

    open spec fn view(&self) -> NoteView {
        NoteView {
            id: self.id,
            content: self.content@,
            source_id: self.source_id,
            topic_id: self.topic_id,
            context_id: self.context_id,
        }
    }
}

/// The notes, in the order of their identifiers.
#[derive(Debug)]
pub struct NoteStore {
    pub notes: Vec<Note>,
}

impl View for NoteStore {
    type V = Seq<NoteView>;

    open spec fn view(&self) -> Seq<NoteView> {
        self.notes@.map_values(|n: Note| n@)
    }
}

/// The fields that a modification replaces; `None` keeps the stored value.
#[derive(Debug)]
pub struct NoteChange {
    pub content: Option<String>,
    pub source_id: Option<i64>,
    pub topic_id: Option<i64>,
    pub context_id: Option<i64>,
}

/// What a `NoteChange` holds, as a mathematical value.
pub ghost struct ChangeView {
    pub content: Option<Seq<char>>,
    pub source_id: Option<i64>,
    pub topic_id: Option<i64>,
    pub context_id: Option<i64>,
}

impl View for NoteChange {
    type V = ChangeView;

    open spec fn view(&self) -> ChangeView {
        ChangeView {
            content: match self.content {
                Some(c) => Some(c@),
                None => None,
            },
            source_id: self.source_id,
            topic_id: self.topic_id,
            context_id: self.context_id,
        }
    }
}

/// Why the store refused an operation.
#[derive(Debug, Clone, Copy, PartialEq, Eq, Structural)]
pub enum StoreError {
    /// No note has the identifier.
    NotFound,
    /// The modification names no field.
    NoChange,
}

/// Identifiers strictly increase along the store.
pub open spec fn store_wf(s: Seq<NoteView>) -> bool {
    forall|i: int, j: int| 0 <= i < j < s.len() ==> s[i].id < s[j].id
}

/// The position of the first note at or after `from` with identifier `id`.
pub open spec fn index_from(s: Seq<NoteView>, id: i64, from: int) -> Option<int>
    decreases s.len() - from,
{
    if from < 0 || from >= s.len() {
        None
    } else if s[from].id == id {
        Some(from)
    } else {
        index_from(s, id, from + 1)
    }
}

/// The position of the note with identifier `id`.
pub open spec fn note_index(s: Seq<NoteView>, id: i64) -> Option<int> {
    index_from(s, id, 0)
}

/// The identifier that the next added note receives.
pub open spec fn next_note_id(s: Seq<NoteView>) -> int {
    if s.len() == 0 {
        1
    } else {
        s.last().id + 1
    }
}

/// The store after a note was added, and the note's identifier; `None` when no identifier
/// above the largest one is left.
pub open spec fn insert_spec(
    s: Seq<NoteView>,
    content: Seq<char>,
    source_id: i64,
    topic_id: i64,
    context_id: i64,
) -> Option<(Seq<NoteView>, i64)> {
    if next_note_id(s) <= i64::MAX {
        let id = next_note_id(s) as i64;
        Some(
            (
                s.push(NoteView { id, content, source_id, topic_id, context_id }),
                id,
            ),
        )
    } else {
        None
    }
}

/// The change names no field.
pub open spec fn change_empty(c: ChangeView) -> bool {
    c.content is None && c.source_id is None && c.topic_id is None && c.context_id is None
}

/// A note with the fields that the change names replaced.
pub open spec fn merged(n: NoteView, c: ChangeView) -> NoteView {
    NoteView {
        id: n.id,
        content: match c.content {
            Some(x) => x,
            None => n.content,
        },
        source_id: match c.source_id {
            Some(x) => x,
            None => n.source_id,
        },
        topic_id: match c.topic_id {
            Some(x) => x,
            None => n.topic_id,
        },
        context_id: match c.context_id {
            Some(x) => x,
            None => n.context_id,
        },
    }
}

pub proof fn lemma_index_from(s: Seq<NoteView>, id: i64, from: int)
    requires
        0 <= from,
    ensures
        index_from(s, id, from) matches Some(i) ==> from <= i < s.len() && s[i].id == id,
        index_from(s, id, from) is None ==> forall|k: int| from <= k < s.len() ==> s[k].id != id,
    decreases s.len() - from,
{
    if from < s.len() && s[from].id != id {
        lemma_index_from(s, id, from + 1);
    }
}

/// In a well-formed store no note is left with an identifier once its note is removed.
pub proof fn lemma_remove_gone(s: Seq<NoteView>, id: i64)
    requires
        store_wf(s),
        note_index(s, id) is Some,
    ensures
        note_index(s.remove(note_index(s, id)->0), id) is None,
        store_wf(s.remove(note_index(s, id)->0)),
{
    lemma_index_from(s, id, 0);
    let i = note_index(s, id)->0;
    let r = s.remove(i);
    assert forall|k: int| 0 <= k < r.len() implies r[k].id != id by {
        if k < i {
            assert(r[k] == s[k]);
        } else {
            assert(r[k] == s[k + 1]);
        }
    }
    lemma_index_from(r, id, 0);
    assert forall|a: int, b: int| 0 <= a < b < r.len() implies r[a].id < r[b].id by {
        let a2 = if a < i { a } else { a + 1 };
        let b2 = if b < i { b } else { b + 1 };
        assert(r[a] == s[a2] && r[b] == s[b2]);
    }
}

impl NoteStore {
    /// A store with no notes.
    pub fn new() -> (r: NoteStore)
        ensures
            r@ == Seq::<NoteView>::empty(),
    {
        let r = NoteStore { notes: Vec::new() };
        assert(r@ =~= Seq::<NoteView>::empty());
        r
    }

    /// Takes over notes read from storage; refuses them unless their identifiers strictly
    /// increase.
    pub fn from_notes(notes: Vec<Note>) -> (r: Option<NoteStore>)
        ensures
            match r {
                Some(s) => store_wf(s@) && s@ == notes@.map_values(|n: Note| n@),
                None => !store_wf(notes@.map_values(|n: Note| n@)),
            },
    {
        let ghost all = notes@.map_values(|n: Note| n@);
        let mut i: usize = 1;
        while i < notes.len()
            invariant
                all == notes@.map_values(|n: Note| n@),
                1 <= i,
                forall|a: int, b: int| 0 <= a < b < i && b < all.len() ==> all[a].id < all[b].id,
            decreases notes@.len() - i,
        {
            if notes[i - 1].id >= notes[i].id {
                assert(!(all[i - 1].id < all[i as int].id));
                return None;
            }
            assert forall|a: int, b: int| 0 <= a < b < i + 1 && b < all.len() implies all[a].id
                < all[b].id by {
                if b == i && a < i - 1 {
                    assert(all[a].id < all[i - 1].id);
                }
            }
            i += 1;
        }
        Some(NoteStore { notes })
    }

    /// The position of the note with identifier `id`.
    pub fn find(&self, id: i64) -> (r: Option<usize>)
        ensures
            r matches Some(i) ==> note_index(self@, id) == Some(i as int),
            r is None ==> note_index(self@, id) is None,
    {
        let mut i: usize = 0;
        while i < self.notes.len()
            invariant
                i <= self@.len(),
                self@.len() == self.notes@.len(),
                note_index(self@, id) == index_from(self@, id, i as int),
            decreases self@.len() - i,
        {
            assert(self@[i as int] == self.notes@[i as int]@);
            if self.notes[i].id == id {
                return Some(i);
            }
            i += 1;
        }
        None
    }

    /// The text of the note with identifier `id`.
    pub fn content_of(&self, id: i64) -> (r: Option<String>)
        ensures
            match note_index(self@, id) {
                Some(i) => r matches Some(c) && c@ == self@[i].content,
                None => r is None,
            },
    {
        match self.find(id) {
            Some(i) => {
                proof {
                    lemma_index_from(self@, id, 0);
                }
                assert(self@[i as int] == self.notes@[i as int]@);
                Some(self.notes[i].content.clone())
            },
            None => None,
        }
    }

    /// Adds a note and gives its identifier, one above the largest so far (1 for the first
    /// note); `None` when no such identifier is left.
    pub fn add(&mut self, content: &str, source_id: i64, topic_id: i64, context_id: i64) -> (r:
        Option<i64>)
        requires
            store_wf(old(self)@),
        ensures
            store_wf(final(self)@),
            match insert_spec(old(self)@, content@, source_id, topic_id, context_id) {
                Some((s, id)) => r == Some(id) && final(self)@ == s,
                None => r is None && final(self)@ == old(self)@,
            },
    {
        let len = self.notes.len();
        let id: i64 = if len == 0 {
            1
        } else {
            let last = self.notes[len - 1].id;
            assert(self@.last() == self.notes@[len - 1]@);
            if last == i64::MAX {
                return None;
            }
            last + 1
        };
        let note = Note { id, content: String::from_str(content), source_id, topic_id, context_id };
        let ghost before = self@;
        self.notes.push(note);
        assert(self@ =~= before.push(note@));
        assert forall|i: int, j: int| 0 <= i < j < self@.len() implies self@[i].id < self@[j].id by {
            if j == before.len() && i < before.len() - 1 {
                assert(before[i].id < before[before.len() - 1].id);
            }
        }
        Some(id)
    }

    /// Replaces the fields that `change` names in the note with identifier `id`; the other
    /// fields keep their values. A change that names no field is refused before anything else.
    pub fn modify(&mut self, id: i64, change: NoteChange) -> (r: Result<(), StoreError>)
        requires
            store_wf(old(self)@),
        ensures
            store_wf(final(self)@),
            change_empty(change@) ==> r == Err::<(), StoreError>(StoreError::NoChange) && final(
                self)@ == old(self)@,
            !change_empty(change@) ==> match note_index(old(self)@, id) {
                Some(i) => r is Ok && final(self)@ == old(self)@.update(i, merged(old(self)@[i], change@)),
                None => r == Err::<(), StoreError>(StoreError::NotFound) && final(self)@ == old(self)@,
            },
    {
        if change.content.is_none() && change.source_id.is_none() && change.topic_id.is_none()
            && change.context_id.is_none() {
            return Err(StoreError::NoChange);
        }
        let i = match self.find(id) {
            Some(i) => i,
            None => return Err(StoreError::NotFound),
        };
        proof {
            lemma_index_from(self@, id, 0);
        }
        let ghost before = self@;
        let mut note = Note { id: 0, content: String::new(), source_id: 0, topic_id: 0, context_id: 0 };
        self.notes.set_and_swap(i, &mut note);
        assert(note@ == before[i as int]);
        let ghost cv = change@;
        let NoteChange { content, source_id, topic_id, context_id } = change;
        if let Some(c) = content {
            note.content = c;
        }
        if let Some(x) = source_id {
            note.source_id = x;
        }
        if let Some(x) = topic_id {
            note.topic_id = x;
        }
        if let Some(x) = context_id {
            note.context_id = x;
        }
        assert(note@ == merged(before[i as int], cv));
        self.notes.set(i, note);
        assert(self@ =~= before.update(i as int, merged(before[i as int], cv)));
        assert forall|a: int, b: int| 0 <= a < b < self@.len() implies self@[a].id < self@[b].id by {
            assert(before[a].id < before[b].id);
        }
        Ok(())
    }

    /// Removes the note with identifier `id` and gives the text it held.
    pub fn remove(&mut self, id: i64) -> (r: Result<String, StoreError>)
        requires
            store_wf(old(self)@),
        ensures
            store_wf(final(self)@),
            match note_index(old(self)@, id) {
                Some(i) => r matches Ok(c) && c@ == old(self)@[i].content && final(self)@ == old(
                    self)@.remove(i),
                None => r == Err::<String, StoreError>(StoreError::NotFound) && final(self)@ == old(
                    self)@,
            },
    {
        let i = match self.find(id) {
            Some(i) => i,
            None => return Err(StoreError::NotFound),
        };
        proof {
            lemma_index_from(self@, id, 0);
            lemma_remove_gone(self@, id);
        }
        let ghost before = self@;
        let note = self.notes.remove(i);
        assert(self@ =~= before.remove(i as int));
        Ok(note.content)
    }
}

} // verus!
