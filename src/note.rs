use vstd::prelude::*;

use crate::forest::{
    get_or_create, lemma_get_or_create, lemma_resolve_path_of, resolve_path, tree_wf, NodeView,
    TagTree,
};
use crate::mirror::{
    append_spec, lemma_append_round_trip, lemma_remove_clears, location_of, location_spec,
    mirror_holds, mirror_mentions, remove_spec, replace_spec, DocView, LocView, Mirror,
};
use crate::path::{get_parents, segments, valid_path};
use crate::source::{self, flat_wf};
use crate::store::{
    insert_spec, lemma_remove_gone, merged, note_index, store_wf, ChangeView, NoteChange,
    NoteStore, NoteView,
};
use crate::tags::{NoteTags, TagsView};
use crate::text::{lemma_split_on_nonempty, views};

verus! {

/// The tables that notes live in: flat sources, hierarchical topics and contexts, notes.
#[derive(Debug)]
pub struct Database {
    pub sources: TagTree,
    pub topics: TagTree,
    pub contexts: TagTree,
    pub notes: NoteStore,
}

/// What a `Database` holds, as a mathematical value.
pub ghost struct DbView {
    pub sources: Seq<NodeView>,
    pub topics: Seq<NodeView>,
    pub contexts: Seq<NodeView>,
    pub notes: Seq<NoteView>,
}

impl View for Database {
    type V = DbView;

    open spec fn view(&self) -> DbView {
        DbView {
            sources: self.sources@,
            topics: self.topics@,
            contexts: self.contexts@,
            notes: self.notes@,
        }
    }
}

/// Why a note operation failed.
#[derive(Debug, Clone, Copy, PartialEq, Eq, Structural)]
pub enum NoteError {
    /// A tag path is empty or has an empty segment, or the source is missing.
    InvalidPath,
    /// No note has the identifier.
    NotFound,
    /// A modification names nothing to change.
    NoChange,
    /// A tag node or a note could not be created: no identifier is left.
    ResolutionError,
    /// The database was changed, but no line of the mirror held the note's old text.
    MirrorMatch,
}

/// Every table is well formed; sources are flat.
pub open spec fn db_wf(d: DbView) -> bool {
    flat_wf(d.sources) && tree_wf(d.topics) && tree_wf(d.contexts) && store_wf(d.notes)
}

/// The tags of a new note name a source, and valid topic and context paths.
pub open spec fn add_valid(t: TagsView) -> bool {
    t.source.len() > 0 && valid_path(t.topic) && valid_path(t.context)
}

/// Where the mirror keeps the notes of a topic path.
pub open spec fn note_location(topic: Seq<char>) -> LocView {
    location_spec(segments(topic).drop_last(), segments(topic).last())
}

/// The database after a note was added: its source, topic and context resolved (created
/// when missing) and the note stored with their identifiers; also the note's identifier.
pub open spec fn add_spec(d: DbView, content: Seq<char>, t: TagsView) -> Option<(DbView, i64)> {
    match get_or_create(d.sources, t.source, None) {
        None => None,
        Some((s1, sid)) => match resolve_path(d.topics, segments(t.topic)) {
            None => None,
            Some((t1, tid)) => match resolve_path(d.contexts, segments(t.context)) {
                None => None,
                Some((c1, cid)) => match insert_spec(d.notes, content, sid, tid, cid) {
                    None => None,
                    Some((n1, id)) => Some(
                        (DbView { sources: s1, topics: t1, contexts: c1, notes: n1 }, id),
                    ),
                },
            },
        },
    }
}

/// A flat tag that may be absent (empty): the table afterwards and the identifier, if any.
pub open spec fn optional_source(t: Seq<NodeView>, name: Seq<char>) -> Option<(Seq<NodeView>, Option<i64>)> {
    if name.len() == 0 {
        Some((t, None))
    } else {
        match get_or_create(t, name, None) {
            Some((u, id)) => Some((u, Some(id))),
            None => None,
        }
    }
}

/// A tag path that may be absent (empty): the table afterwards and the identifier, if any.
pub open spec fn optional_path(t: Seq<NodeView>, tag: Seq<char>) -> Option<(Seq<NodeView>, Option<i64>)> {
    if tag.len() == 0 {
        Some((t, None))
    } else {
        match resolve_path(t, segments(tag)) {
            Some((u, id)) => Some((u, Some(id))),
            None => None,
        }
    }
}

/// No tag and no content is given.
pub open spec fn tags_empty(t: TagsView) -> bool {
    t.source.len() == 0 && t.topic.len() == 0 && t.context.len() == 0 && t.content.len() == 0
}

/// Every path that a modification gives is valid.
pub open spec fn modify_valid(t: TagsView) -> bool {
    (t.topic.len() == 0 || valid_path(t.topic)) && (t.context.len() == 0 || valid_path(t.context))
}

/// The change that the given tags make to a note.
pub open spec fn change_of(t: TagsView, sid: Option<i64>, tid: Option<i64>, cid: Option<i64>) -> ChangeView {
    ChangeView {
        content: if t.content.len() > 0 {
            Some(t.content)
        } else {
            None
        },
        source_id: sid,
        topic_id: tid,
        context_id: cid,
    }
}

/// The database after the note at position `i` was modified: the tags that are given are
/// resolved and replace the note's, and given content replaces its text.
pub open spec fn modify_spec(d: DbView, i: int, t: TagsView) -> Option<DbView> {
    match optional_source(d.sources, t.source) {
        None => None,
        Some((s1, sid)) => match optional_path(d.topics, t.topic) {
            None => None,
            Some((t1, tid)) => match optional_path(d.contexts, t.context) {
                None => None,
                Some((c1, cid)) => Some(
                    DbView {
                        sources: s1,
                        topics: t1,
                        contexts: c1,
                        notes: d.notes.update(i, merged(d.notes[i], change_of(t, sid, tid, cid))),
                    },
                ),
            },
        },
    }
}

impl Database {
    /// A database with empty tables.
    pub fn new() -> (r: Database)
        ensures
            db_wf(r@),
            r@.sources.len() == 0,
            r@.topics.len() == 0,
            r@.contexts.len() == 0,
            r@.notes.len() == 0,
    {
        Database {
            sources: TagTree::new(),
            topics: TagTree::new(),
            contexts: TagTree::new(),
            notes: NoteStore::new(),
        }
    }
}

/// The ancestors and leaf that `get_parents` gave, put back together, are the path's segments.
proof fn lemma_parts_rejoin(tag: Seq<char>, ancestors: Seq<String>, leaf: String)
    requires
        valid_path(tag),
        views(ancestors) == segments(tag).drop_last(),
        leaf@ == segments(tag).last(),
    ensures
        views(ancestors).push(leaf@) == segments(tag),
{
    assert(views(ancestors).push(leaf@) =~= segments(tag));
}

/// Round trip: after a note is added under a topic path, the mirror has the document that
/// the location rule names for that path, and its section for the leaf holds the note's
/// text. For `a/b/c` that is the document `b` in the directory `a`, with a section `c`.
pub proof fn lemma_add_round_trip(m: Seq<DocView>, topic: Seq<char>, content: Seq<char>)
    requires
        valid_path(topic),
    ensures
        ({
            let loc = note_location(topic);
            mirror_holds(append_spec(m, loc, content), loc.dirs, loc.document, segments(topic).last(), content)
        }),
{
    lemma_append_round_trip(m, segments(topic).drop_last(), segments(topic).last(), content);
}

/// Removing a note leaves no note with its identifier, and no line in any document of the
/// mirror that contains its text.
pub proof fn lemma_remove_entry(d: DbView, m: Seq<DocView>, id: i64)
    requires
        db_wf(d),
        note_index(d.notes, id) is Some,
    ensures
        ({
            let i = note_index(d.notes, id)->0;
            &&& note_index(d.notes.remove(i), id) is None
            &&& !mirror_mentions(remove_spec(m, d.notes[i].content), d.notes[i].content)
        }),
{
    lemma_remove_gone(d.notes, id);
    let i = note_index(d.notes, id)->0;
    lemma_remove_clears(m, d.notes[i].content);
}

/// Resolves the tags of a new note and stores it; on failure the database is left as it was.
fn add_to_db(db: &mut Database, content: &str, tags: &NoteTags) -> (r: Result<i64, NoteError>)
    requires
        db_wf(old(db)@),
    ensures
        db_wf(final(db)@),
        !add_valid(tags@) ==> r == Err::<i64, NoteError>(NoteError::InvalidPath) && final(db)@ == old(db)@,
        add_valid(tags@) ==> match add_spec(old(db)@, content@, tags@) {
            Some((d, id)) => r == Ok::<i64, NoteError>(id) && final(db)@ == d,
            None => r == Err::<i64, NoteError>(NoteError::ResolutionError) && final(db)@ == old(db)@,
        },
{
    let (t_anc, t_leaf) = match get_parents(tags.topic.as_str()) {
        Ok(p) => p,
        Err(_) => return Err(NoteError::InvalidPath),
    };
    let (c_anc, c_leaf) = match get_parents(tags.context.as_str()) {
        Ok(p) => p,
        Err(_) => return Err(NoteError::InvalidPath),
    };
    if tags.source.as_str().is_empty() {
        return Err(NoteError::InvalidPath);
    }
    proof {
        lemma_parts_rejoin(tags@.topic, t_anc@, t_leaf);
        lemma_parts_rejoin(tags@.context, c_anc@, c_leaf);
    }
    let ghost d0 = db@;
    let ns = db.sources.nodes.len();
    let nt = db.topics.nodes.len();
    let nc = db.contexts.nodes.len();
    let sid = match source::get_id(&mut db.sources, tags.source.as_str()) {
        Ok(id) => id,
        Err(_) => return Err(NoteError::ResolutionError),
    };
    proof {
        lemma_get_or_create(d0.sources, tags@.source, None);
    }
    let tid = match db.topics.resolve(&t_anc, &t_leaf) {
        Ok(id) => id,
        Err(_) => {
            db.sources.nodes.truncate(ns);
            assert(db.sources@ =~= d0.sources);
            return Err(NoteError::ResolutionError);
        },
    };
    proof {
        lemma_resolve_path_of(d0.topics, segments(tags@.topic));
    }
    let cid = match db.contexts.resolve(&c_anc, &c_leaf) {
        Ok(id) => id,
        Err(_) => {
            db.sources.nodes.truncate(ns);
            db.topics.nodes.truncate(nt);
            assert(db.sources@ =~= d0.sources);
            assert(db.topics@ =~= d0.topics);
            return Err(NoteError::ResolutionError);
        },
    };
    proof {
        lemma_resolve_path_of(d0.contexts, segments(tags@.context));
    }
    match db.notes.add(content, sid, tid, cid) {
        Some(id) => {
            assert(db@ == (add_spec(d0, content@, tags@)->0).0);
            Ok(id)
        },
        None => {
            db.sources.nodes.truncate(ns);
            db.topics.nodes.truncate(nt);
            db.contexts.nodes.truncate(nc);
            assert(db.sources@ =~= d0.sources);
            assert(db.topics@ =~= d0.topics);
            assert(db.contexts@ =~= d0.contexts);
            Err(NoteError::ResolutionError)
        },
    }
}

/// Adds `content` to the mirror, in the section that the topic path names.
fn add_to_notes(mirror: &mut Mirror, topic: &str, content: &str)
    requires
        valid_path(topic@),
    ensures
        final(mirror)@ == append_spec(old(mirror)@, note_location(topic@), content@),
{
    match get_parents(topic) {
        Ok((ancestors, leaf)) => {
            let loc = location_of(&ancestors, &leaf);
            mirror.append_or_merge_section(&loc, content);
        },
        Err(_) => {},
    }
}

/// Adds a note: resolves its source, topic and context (creating the tags that are
/// missing), stores it, then writes its text into the mirror under its topic. Gives the
/// note's identifier. When a tag cannot be resolved or the note cannot be stored, neither
/// the database nor the mirror changes.
pub fn add(db: &mut Database, mirror: &mut Mirror, content: &str, tags: &NoteTags) -> (r: Result<
    i64,
    NoteError,
>)
    requires
        db_wf(old(db)@),
    ensures
        db_wf(final(db)@),
        !add_valid(tags@) ==> r == Err::<i64, NoteError>(NoteError::InvalidPath) && final(db)@ == old(db)@
            && final(mirror)@ == old(mirror)@,
        add_valid(tags@) ==> match add_spec(old(db)@, content@, tags@) {
            Some((d, id)) => r == Ok::<i64, NoteError>(id) && final(db)@ == d && final(mirror)@
                == append_spec(old(mirror)@, note_location(tags@.topic), content@),
            None => r == Err::<i64, NoteError>(NoteError::ResolutionError) && final(db)@ == old(db)@
                && final(mirror)@ == old(mirror)@,
        },
{
    let id = match add_to_db(db, content, tags) {
        Ok(id) => id,
        Err(e) => return Err(e),
    };
    add_to_notes(mirror, tags.topic.as_str(), content);
    Ok(id)
}

/// Splits a tag path that may be absent (empty): `Ok(None)` when it is absent.
fn optional_parts(tag: &String) -> (r: Result<Option<(Vec<String>, String)>, NoteError>)
    ensures
        tag@.len() == 0 ==> r == Ok::<Option<(Vec<String>, String)>, NoteError>(None),
        tag@.len() > 0 && !valid_path(tag@) ==> r == Err::<Option<(Vec<String>, String)>, NoteError>(
            NoteError::InvalidPath,
        ),
        tag@.len() > 0 && valid_path(tag@) ==> (r matches Ok(Some((a, l))) && views(a@).push(l@)
            == segments(tag@)),
{
    if tag.as_str().is_empty() {
        return Ok(None);
    }
    match get_parents(tag.as_str()) {
        Ok((a, l)) => {
            proof {
                lemma_parts_rejoin(tag@, a@, l);
            }
            Ok(Some((a, l)))
        },
        Err(_) => Err(NoteError::InvalidPath),
    }
}

/// Applies a modification to the database: the given tags are resolved and replace the
/// note's, given content replaces its text. On failure the database is left as it was.
fn modify_db(db: &mut Database, id: i64, tags: &NoteTags) -> (r: Result<(), NoteError>)
    requires
        db_wf(old(db)@),
    ensures
        db_wf(final(db)@),
        tags_empty(tags@) ==> r == Err::<(), NoteError>(NoteError::NoChange) && final(db)@ == old(db)@,
        !tags_empty(tags@) ==> match note_index(old(db)@.notes, id) {
            None => r == Err::<(), NoteError>(NoteError::NotFound) && final(db)@ == old(db)@,
            Some(i) => if !modify_valid(tags@) {
                r == Err::<(), NoteError>(NoteError::InvalidPath) && final(db)@ == old(db)@
            } else {
                match modify_spec(old(db)@, i, tags@) {
                    Some(d) => r is Ok && final(db)@ == d,
                    None => r == Err::<(), NoteError>(NoteError::ResolutionError) && final(db)@ == old(
                        db)@,
                }
            },
        },
{
    if tags.source.as_str().is_empty() && tags.topic.as_str().is_empty()
        && tags.context.as_str().is_empty() && tags.content.as_str().is_empty() {
        return Err(NoteError::NoChange);
    }
    let ghost d0 = db@;
    let i = match db.notes.find(id) {
        Some(i) => i,
        None => return Err(NoteError::NotFound),
    };
    let topic_parts = match optional_parts(&tags.topic) {
        Ok(p) => p,
        Err(e) => return Err(e),
    };
    let context_parts = match optional_parts(&tags.context) {
        Ok(p) => p,
        Err(e) => return Err(e),
    };
    let ns = db.sources.nodes.len();
    let nt = db.topics.nodes.len();
    let nc = db.contexts.nodes.len();
    let sid = if tags.source.as_str().is_empty() {
        None
    } else {
        match source::get_id(&mut db.sources, tags.source.as_str()) {
            Ok(x) => {
                proof {
                    lemma_get_or_create(d0.sources, tags@.source, None);
                }
                Some(x)
            },
            Err(_) => return Err(NoteError::ResolutionError),
        }
    };
    assert(db.sources@.subrange(0, ns as int) =~= d0.sources);
    let tid = match topic_parts {
        None => None,
        Some((a, l)) => match db.topics.resolve(&a, &l) {
            Ok(x) => {
                proof {
                    lemma_resolve_path_of(d0.topics, segments(tags@.topic));
                }
                Some(x)
            },
            Err(_) => {
                db.sources.nodes.truncate(ns);
                assert(db.sources@ =~= d0.sources);
                return Err(NoteError::ResolutionError);
            },
        },
    };
    assert(db.topics@.subrange(0, nt as int) =~= d0.topics);
    let cid = match context_parts {
        None => None,
        Some((a, l)) => match db.contexts.resolve(&a, &l) {
            Ok(x) => {
                proof {
                    lemma_resolve_path_of(d0.contexts, segments(tags@.context));
                }
                Some(x)
            },
            Err(_) => {
                db.sources.nodes.truncate(ns);
                db.topics.nodes.truncate(nt);
                assert(db.sources@ =~= d0.sources);
                assert(db.topics@ =~= d0.topics);
                return Err(NoteError::ResolutionError);
            },
        },
    };
    let content = if tags.content.as_str().is_empty() {
        None
    } else {
        Some(tags.content.clone())
    };
    let change = NoteChange { content, source_id: sid, topic_id: tid, context_id: cid };
    assert(change@ == change_of(tags@, sid, tid, cid));
    match db.notes.modify(id, change) {
        Ok(()) => Ok(()),
        Err(_) => Err(NoteError::NotFound),
    }
}

/// Rewrites each mirror line that holds `old_content` to `new_content`; reports when
/// no line held it.
fn modify_notes(mirror: &mut Mirror, old_content: &str, new_content: &str) -> (r: Result<(), NoteError>)
    ensures
        final(mirror)@ == replace_spec(old(mirror)@, old_content@, new_content@),
        r == if mirror_mentions(old(mirror)@, old_content@) {
            Ok::<(), NoteError>(())
        } else {
            Err::<(), NoteError>(NoteError::MirrorMatch)
        },
{
    if mirror.replace_by_text(old_content, new_content) {
        Ok(())
    } else {
        Err(NoteError::MirrorMatch)
    }
}

/// Modifies a note. Refuses tags that name nothing, then an unknown note, then an invalid
/// path; resolves the tags that are given and replaces the note's fields with them. When new
/// content is given, each mirror line that holds the old text is rewritten to the new text
/// where it stands (a changed topic does not move it); `MirrorMatch` reports that no line
/// held it, and the database change stands.
pub fn modify(db: &mut Database, mirror: &mut Mirror, id: i64, tags: &NoteTags) -> (r: Result<
    (),
    NoteError,
>)
    requires
        db_wf(old(db)@),
    ensures
        db_wf(final(db)@),
        tags_empty(tags@) ==> r == Err::<(), NoteError>(NoteError::NoChange) && final(db)@ == old(db)@
            && final(mirror)@ == old(mirror)@,
        !tags_empty(tags@) ==> match note_index(old(db)@.notes, id) {
            None => r == Err::<(), NoteError>(NoteError::NotFound) && final(db)@ == old(db)@
                && final(mirror)@ == old(mirror)@,
            Some(i) => if !modify_valid(tags@) {
                r == Err::<(), NoteError>(NoteError::InvalidPath) && final(db)@ == old(db)@
                    && final(mirror)@ == old(mirror)@
            } else {
                match modify_spec(old(db)@, i, tags@) {
                    None => r == Err::<(), NoteError>(NoteError::ResolutionError) && final(db)@ == old(
                        db)@ && final(mirror)@ == old(mirror)@,
                    Some(d) => final(db)@ == d && if tags@.content.len() > 0 {
                        &&& final(mirror)@ == replace_spec(
                            old(mirror)@,
                            old(db)@.notes[i].content,
                            tags@.content,
                        )
                        &&& r == if mirror_mentions(old(mirror)@, old(db)@.notes[i].content) {
                            Ok::<(), NoteError>(())
                        } else {
                            Err::<(), NoteError>(NoteError::MirrorMatch)
                        }
                    } else {
                        final(mirror)@ == old(mirror)@ && r is Ok
                    },
                }
            },
        },
{
    let old_content = db.notes.content_of(id);
    match modify_db(db, id, tags) {
        Ok(()) => {},
        Err(e) => return Err(e),
    }
    if tags.content.as_str().is_empty() {
        return Ok(());
    }
    match old_content {
        Some(c) => modify_notes(mirror, c.as_str(), tags.content.as_str()),
        None => Err(NoteError::NotFound),
    }
}

/// Removes a note from the database, then every mirror line, in every document, that holds
/// its text. `MirrorMatch` reports that no line held it; the note is removed all the same.
pub fn remove(db: &mut Database, mirror: &mut Mirror, id: i64) -> (r: Result<(), NoteError>)
    requires
        db_wf(old(db)@),
    ensures
        db_wf(final(db)@),
        match note_index(old(db)@.notes, id) {
            None => r == Err::<(), NoteError>(NoteError::NotFound) && final(db)@ == old(db)@
                && final(mirror)@ == old(mirror)@,
            Some(i) => {
                &&& final(db)@ == DbView { notes: old(db)@.notes.remove(i), ..old(db)@ }
                &&& final(mirror)@ == remove_spec(old(mirror)@, old(db)@.notes[i].content)
                &&& r == if mirror_mentions(old(mirror)@, old(db)@.notes[i].content) {
                    Ok::<(), NoteError>(())
                } else {
                    Err::<(), NoteError>(NoteError::MirrorMatch)
                }
            },
        },
{
    let content = match db.notes.remove(id) {
        Ok(c) => c,
        Err(_) => return Err(NoteError::NotFound),
    };
    if mirror.remove_by_text(content.as_str()) {
        Ok(())
    } else {
        Err(NoteError::MirrorMatch)
    }
}

} // verus!
